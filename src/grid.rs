//! A zero-copy view that treats a newline-delimited byte buffer as a grid.

use vstd::prelude::*;
use vstd::slice::slice_subrange;
use vstd::arithmetic::div_mod::lemma_fundamental_div_mod_converse;
use vstd::string::StringSliceAdditionalSpecFns;

verus! {

/// The byte that separates two rows of a grid.
pub const NEWLINE: u8 = 10;

/// A cell coordinate: `y` is the row, `x` the column.
#[derive(Clone, Copy, Debug, Hash, PartialEq, Eq, Structural)]
pub struct Position {
    pub y: usize,
    pub x: usize,
}

impl Position {
    /// The cell one column to the right.
    pub fn right(self) -> (r: Self)
        requires
            self.x < usize::MAX,
        ensures
            r == (Position { y: self.y, x: (self.x + 1) as usize }),
    {
        Self { y: self.y, x: self.x + 1 }
    }

    /// The cell one row further down.
    pub fn down(self) -> (r: Self)
        requires
            self.y < usize::MAX,
        ensures
            r == (Position { y: (self.y + 1) as usize, x: self.x }),
    {
        Self { y: self.y + 1, x: self.x }
    }

    /// The cell one column to the left.
    pub fn left(self) -> (r: Self)
        requires
            self.x > 0,
        ensures
            r == (Position { y: self.y, x: (self.x - 1) as usize }),
    {
        Self { y: self.y, x: self.x - 1 }
    }

    /// The cell one row further up.
    pub fn up(self) -> (r: Self)
        requires
            self.y > 0,
        ensures
            r == (Position { y: (self.y - 1) as usize, x: self.x }),
    {
        Self { y: self.y - 1, x: self.x }
    }
}

/// Whether the buffer's last byte is a row separator.
pub open spec fn ends_with_newline(s: Seq<u8>) -> bool {
    s.len() > 0 && s.last() == NEWLINE
}

/// Whether the buffer's first byte is a row separator.
pub open spec fn starts_with_newline(s: Seq<u8>) -> bool {
    s.len() > 0 && s[0] == NEWLINE
}

/// Why `s` cannot be viewed as a grid, or `None` when it can: it ends with a
/// separator, holds none, or starts with one (which leaves rows empty).
pub open spec fn grid_error(s: Seq<u8>) -> Option<GridError> {
    if ends_with_newline(s) {
        Some(GridError::TrailingNewline)
    } else if !has_newline(s) {
        Some(GridError::MissingNewline)
    } else if starts_with_newline(s) {
        Some(GridError::LeadingNewline)
    } else {
        None
    }
}

/// Whether the buffer holds a row separator anywhere.
pub open spec fn has_newline(s: Seq<u8>) -> bool {
    exists|k: int| 0 <= k < s.len() && s[k] == NEWLINE
}

/// `i` is the offset of the first row separator in `s`.
pub open spec fn is_first_newline(s: Seq<u8>, i: int) -> bool {
    &&& 0 <= i < s.len()
    &&& s[i] == NEWLINE
    &&& forall|j: int| 0 <= j < i ==> s[j] != NEWLINE
}

/// The number of row separators among the first `n` bytes of `s`.
pub open spec fn newlines_before(s: Seq<u8>, n: int) -> nat
    decreases n,
{
    if n <= 0 {
        0
    } else {
        newlines_before(s, n - 1) + if s[n - 1] == NEWLINE {
            1nat
        } else {
            0nat
        }
    }
}

/// No more separators than bytes.
pub proof fn lemma_newlines_before_bound(s: Seq<u8>, n: int)
    ensures
        newlines_before(s, n) <= if n < 0 {
            0
        } else {
            n
        },
    decreases n,
{
    if n > 0 {
        lemma_newlines_before_bound(s, n - 1);
    }
}

/// `s` is a rectangular grid of `rows` rows of `columns` bytes each, the rows
/// joined by single separators and no separator at the end.
pub open spec fn is_grid(s: Seq<u8>, rows: nat, columns: nat) -> bool {
    &&& rows >= 1
    &&& columns >= 1
    &&& s.len() + 1 == rows * (columns + 1)
    &&& forall|k: int|
        0 <= k < s.len() ==> (#[trigger] s[k] == NEWLINE <==> k % (columns + 1) as int == columns as int)
}

/// Row `i` of a grid of `rows` rows of `columns` bytes ends inside the buffer.
pub proof fn lemma_row_in_bounds(rows: nat, columns: nat, i: nat)
    requires
        i < rows,
    ensures
        i * (columns + 1) + columns < rows * (columns + 1),
        (i * (columns + 1) + columns) as int <= i * (columns + 1) + columns,
{
    assert(i * (columns + 1) + columns < rows * (columns + 1)) by (nonlinear_arith)
        requires
            i < rows,
    ;
}

/// Why a buffer cannot be viewed as a grid.
#[derive(Clone, Copy, Debug, PartialEq, Eq, Structural)]
pub enum GridError {
    /// The buffer ends with a row separator.
    TrailingNewline,
    /// The buffer holds no row separator, so the row width is unknown.
    MissingNewline,
    /// The buffer starts with a row separator, so the first row is empty.
    LeadingNewline,
}

/// Relies on memchr::memchr: the offset of the first occurrence of `needle`
/// in `haystack`, or `None` when it does not occur.
#[verifier::external_body]
pub(crate) fn find_byte(needle: u8, haystack: &[u8]) -> (r: Option<usize>)
    ensures
        match r {
            Some(i) => i < haystack@.len() && haystack@[i as int] == needle && forall|j: int|
                0 <= j < i ==> haystack@[j] != needle,
            None => forall|j: int| 0 <= j < haystack@.len() ==> haystack@[j] != needle,
        },
{
    memchr::memchr(needle, haystack)
}

/// A read-only grid over a borrowed buffer of newline-separated rows.
#[derive(Clone, Copy, Debug)]
pub struct ByteGridView<'a> {
    store: &'a [u8],
    rows: usize,
    columns: usize,
}

impl<'a> ByteGridView<'a> {
    /// The bytes the view reads.
    pub closed spec fn bytes(&self) -> Seq<u8> {
        self.store@
    }

    /// The number of rows.
    pub closed spec fn spec_rows(&self) -> nat {
        self.rows as nat
    }

    /// The number of bytes in a row.
    pub closed spec fn spec_columns(&self) -> nat {
        self.columns as nat
    }

    /// What every view holds: the width is the offset of the first separator
    /// and the row count is one more than the number of separators.
    pub open spec fn wf(&self) -> bool {
        &&& is_first_newline(self.bytes(), self.spec_columns() as int)
        &&& self.spec_columns() >= 1
        &&& !ends_with_newline(self.bytes())
        &&& self.bytes().len() <= usize::MAX
        &&& self.spec_rows() == newlines_before(self.bytes(), self.bytes().len() as int) + 1
    }

    /// Every row of the view has the same width.
    pub open spec fn rectangular(&self) -> bool {
        is_grid(self.bytes(), self.spec_rows(), self.spec_columns())
    }

    /// The offset in the buffer at which row `r` starts.
    pub open spec fn row_start(&self, r: int) -> int {
        r * (self.spec_columns() + 1)
    }

    /// The bytes of row `r`.
    pub open spec fn row_bytes(&self, r: int) -> Seq<u8> {
        self.bytes().subrange(self.row_start(r), self.row_start(r) + self.spec_columns())
    }

    /// The byte at row `r`, column `c`.
    pub open spec fn cell(&self, r: int, c: int) -> u8 {
        self.bytes()[self.row_start(r) + c]
    }

    /// A cell paired with its coordinates.
    pub open spec fn entry(&self, r: int, c: int) -> (u8, usize, usize) {
        (self.cell(r, c), r as usize, c as usize)
    }

    /// The left, right, upper and lower neighbours of `(row, col)` that lie
    /// in the grid, in that order.
    pub open spec fn four_neighbors(&self, row: int, col: int) -> Seq<(u8, usize, usize)> {
        (if col > 0 {
            seq![self.entry(row, col - 1)]
        } else {
            Seq::empty()
        }) + (if col + 1 != self.spec_columns() {
            seq![self.entry(row, col + 1)]
        } else {
            Seq::empty()
        }) + (if row > 0 {
            seq![self.entry(row - 1, col)]
        } else {
            Seq::empty()
        }) + (if row + 1 != self.spec_rows() {
            seq![self.entry(row + 1, col)]
        } else {
            Seq::empty()
        })
    }

    /// The first column of the rows above and below a span that starts at
    /// `col_from`.
    pub open spec fn span_lo(&self, col_from: int) -> int {
        if col_from > 0 {
            col_from - 1
        } else {
            0
        }
    }

    /// The last column of the rows above and below a span that ends before
    /// `col_to`.
    pub open spec fn span_hi(&self, col_to: int) -> int {
        if col_to < self.spec_columns() - 1 {
            col_to
        } else {
            self.spec_columns() - 1
        }
    }

    /// The cells of row `r` from column `lo` through column `hi`.
    pub open spec fn segment(&self, r: int, lo: int, hi: int) -> Seq<(u8, usize, usize)> {
        Seq::new((hi - lo + 1) as nat, |i: int| self.entry(r, lo + i))
    }

    /// The cells around the span of row `row` from `col_from` up to, not
    /// including, `col_to`: the row above, the row below, the cell on the
    /// left, the cell on the right, each where it lies in the grid.
    pub open spec fn perimeter(&self, row: int, col_from: int, col_to: int) -> Seq<
        (u8, usize, usize),
    > {
        (if row > 0 {
            self.segment(row - 1, self.span_lo(col_from), self.span_hi(col_to))
        } else {
            Seq::empty()
        }) + (if row + 1 != self.spec_rows() {
            self.segment(row + 1, self.span_lo(col_from), self.span_hi(col_to))
        } else {
            Seq::empty()
        }) + (if col_from > 0 {
            seq![self.entry(row, col_from - 1)]
        } else {
            Seq::empty()
        }) + (if col_to != self.spec_columns() {
            seq![self.entry(row, col_to)]
        } else {
            Seq::empty()
        })
    }

    /// Column `c` is the last one.
    pub open spec fn right_edge(&self, c: int) -> bool {
        c + 1 == self.spec_columns()
    }

    /// Column `c` is the first one.
    pub open spec fn left_edge(&self, c: int) -> bool {
        c == 0
    }

    /// Row `r` is the first one.
    pub open spec fn top_edge(&self, r: int) -> bool {
        r == 0
    }

    /// Row `r` is the last one.
    pub open spec fn bottom_edge(&self, r: int) -> bool {
        r + 1 == self.spec_rows()
    }

    /// Rows `0` up to, not including, `n`, joined by separators.
    pub open spec fn joined_rows(&self, n: int) -> Seq<u8>
        decreases n,
    {
        if n <= 1 {
            self.row_bytes(0)
        } else {
            self.joined_rows(n - 1) + seq![NEWLINE] + self.row_bytes(n - 1)
        }
    }

    /// Views `s` as a grid. Fails when `s` ends with a separator, holds none,
    /// or starts with one; otherwise the width is the offset of the first
    /// separator and the row count is one more than the number of separators.
    pub fn from_bytes(s: &'a [u8]) -> (r: Result<Self, GridError>)
        ensures
            match r {
                Ok(g) => {
                    &&& grid_error(s@) is None
                    &&& g.bytes() == s@
                    &&& g.wf()
                },
                Err(e) => grid_error(s@) == Some(e),
            },
    {
        let n = s.len();
        if n > 0 && s[n - 1] == NEWLINE {
            return Err(GridError::TrailingNewline);
        }
        let columns = match find_byte(NEWLINE, s) {
            Some(c) => c,
            None => {
                return Err(GridError::MissingNewline);
            },
        };
        if columns == 0 {
            return Err(GridError::LeadingNewline);
        }
        let mut count: usize = 0;
        let mut i: usize = 0;
        while i < n
            invariant
                i <= n,
                n == s@.len(),
                count <= i,
                count == newlines_before(s@, i as int),
            decreases n - i,
        {
            if s[i] == NEWLINE {
                count = count + 1;
            }
            i = i + 1;
        }
        proof {
            lemma_newlines_before_bound(s@, n - 1);
        }
        Ok(Self { store: s, rows: count + 1, columns })
    }

    /// Views the bytes of `s` as a grid, as `from_bytes` does.
    pub fn parse(s: &'a str) -> (r: Result<Self, GridError>)
        ensures
            match r {
                Ok(g) => {
                    &&& grid_error(s.spec_bytes()) is None
                    &&& g.bytes() == s.spec_bytes()
                    &&& g.wf()
                },
                Err(e) => grid_error(s.spec_bytes()) == Some(e),
            },
    {
        Self::from_bytes(s.as_bytes())
    }

    /// The number of rows.
    pub fn rows(&self) -> (r: usize)
        ensures
            r == self.spec_rows(),
    {
        self.rows
    }

    /// The number of bytes in a row.
    pub fn columns(&self) -> (r: usize)
        ensures
            r == self.spec_columns(),
    {
        self.columns
    }

    /// Whether column `c` is the last one.
    pub fn is_right_edge(&self, c: usize) -> (r: bool)
        ensures
            r == self.right_edge(c as int),
    {
        self.columns != 0 && self.columns - 1 == c
    }

    /// Whether column `c` is the first one.
    pub fn is_left_edge(&self, c: usize) -> (r: bool)
        ensures
            r == self.left_edge(c as int),
    {
        0 == c
    }

    /// Whether row `r` is the first one.
    pub fn is_top_edge(&self, r: usize) -> (b: bool)
        ensures
            b == self.top_edge(r as int),
    {
        r == 0
    }

    /// Whether row `r` is the last one.
    pub fn is_bottom_edge(&self, r: usize) -> (b: bool)
        requires
            self.wf(),
        ensures
            b == self.bottom_edge(r as int),
    {
        self.rows - 1 == r
    }

    /// The row of a flat offset into the buffer.
    pub fn norm_to_row(&self, index: usize) -> (r: usize)
        requires
            self.wf(),
        ensures
            r == index as int / (self.spec_columns() + 1) as int,
    {
        index / (self.columns + 1)
    }

    /// The column of a flat offset into the buffer.
    pub fn norm_to_col(&self, index: usize) -> (r: usize)
        requires
            self.wf(),
        ensures
            r == index as int % (self.spec_columns() + 1) as int,
    {
        index % (self.columns + 1)
    }

    /// The bytes of row `i`, without its separator.
    pub fn row(&self, i: usize) -> (r: &'a [u8])
        requires
            self.wf(),
            self.rectangular(),
            i < self.spec_rows(),
        ensures
            r@ == self.row_bytes(i as int),
            r@.len() == self.spec_columns(),
    {
        proof {
            lemma_row_in_bounds(self.spec_rows(), self.spec_columns(), i as nat);
        }
        let start = i * (self.columns + 1);
        slice_subrange(self.store, start, start + self.columns)
    }

    /// The byte at row `r`, column `c`.
    pub fn get(&self, r: usize, c: usize) -> (v: u8)
        requires
            self.wf(),
            self.rectangular(),
            r < self.spec_rows(),
            c < self.spec_columns(),
        ensures
            v == self.cell(r as int, c as int),
    {
        proof {
            lemma_row_in_bounds(self.spec_rows(), self.spec_columns(), r as nat);
        }
        self.store[r * (self.columns + 1) + c]
    }

    /// The left, right, upper and lower neighbours of a cell, each with its
    /// coordinates, leaving out those beyond the grid's edges.
    pub fn non_diagonal_neighbors(&self, row: usize, col: usize) -> (r: Vec<(u8, usize, usize)>)
        requires
            self.wf(),
            self.rectangular(),
            row < self.spec_rows(),
            col < self.spec_columns(),
        ensures
            r@ == self.four_neighbors(row as int, col as int),
    {
        let mut out: Vec<(u8, usize, usize)> = Vec::new();
        if col > 0 {
            out.push((self.get(row, col - 1), row, col - 1));
        }
        let ghost after_left = out@;
        if col != self.columns - 1 {
            out.push((self.get(row, col + 1), row, col + 1));
        }
        let ghost after_right = out@;
        if row > 0 {
            out.push((self.get(row - 1, col), row - 1, col));
        }
        let ghost after_up = out@;
        if row != self.rows - 1 {
            out.push((self.get(row + 1, col), row + 1, col));
        }
        proof {
            let (ri, ci) = (row as int, col as int);
            let l = if ci > 0 { seq![self.entry(ri, ci - 1)] } else { Seq::empty() };
            let rt = if ci + 1 != self.spec_columns() { seq![self.entry(ri, ci + 1)] } else { Seq::empty() };
            let u = if ri > 0 { seq![self.entry(ri - 1, ci)] } else { Seq::empty() };
            let d = if ri + 1 != self.spec_rows() { seq![self.entry(ri + 1, ci)] } else { Seq::empty() };
            assert(after_left =~= l);
            assert(after_right =~= l + rt);
            assert(after_up =~= l + rt + u);
            assert(out@ =~= l + rt + u + d);
        }
        out
    }

    /// Appends the cells of row `r` from column `lo` through `hi`.
    fn push_segment(&self, out: &mut Vec<(u8, usize, usize)>, r: usize, lo: usize, hi: usize)
        requires
            self.wf(),
            self.rectangular(),
            r < self.spec_rows(),
            lo <= hi < self.spec_columns(),
        ensures
            final(out)@ == old(out)@ + self.segment(r as int, lo as int, hi as int),
    {
        let ghost start = old(out)@;
        let mut c = lo;
        while c <= hi
            invariant
                self.wf(),
                self.rectangular(),
                r < self.spec_rows(),
                lo <= c <= hi + 1,
                hi < self.spec_columns(),
                out@ == start + self.segment(r as int, lo as int, c as int - 1),
            decreases hi + 1 - c,
        {
            out.push((self.get(r, c), r, c));
            proof {
                assert(out@ =~= start + self.segment(r as int, lo as int, c as int));
            }
            c = c + 1;
        }
    }

    /// The cells around a horizontal span of row `row` from `col_from` up to,
    /// not including, `col_to`, each with its coordinates: the row above from
    /// left to right, the row below from left to right, then the cell on the
    /// left and the cell on the right, leaving out what lies beyond an edge.
    pub fn multi_column_neighbors_with_coordinates(
        &self,
        row: usize,
        col_from: usize,
        col_to: usize,
    ) -> (r: Vec<(u8, usize, usize)>)
        requires
            self.wf(),
            self.rectangular(),
            row < self.spec_rows(),
            col_from < col_to <= self.spec_columns(),
        ensures
            r@ == self.perimeter(row as int, col_from as int, col_to as int),
    {
        let mut out: Vec<(u8, usize, usize)> = Vec::new();
        let col_start = if col_from > 0 { col_from - 1 } else { 0 };
        let col_end = if col_to < self.columns - 1 { col_to } else { self.columns - 1 };
        if row > 0 {
            self.push_segment(&mut out, row - 1, col_start, col_end);
        }
        let ghost after_above = out@;
        if row != self.rows - 1 {
            self.push_segment(&mut out, row + 1, col_start, col_end);
        }
        let ghost after_below = out@;
        if col_from > 0 {
            out.push((self.get(row, col_from - 1), row, col_from - 1));
        }
        let ghost after_left = out@;
        if col_to != self.columns {
            out.push((self.get(row, col_to), row, col_to));
        }
        proof {
            let (ri, lo, hi) = (row as int, col_start as int, col_end as int);
            let a = if ri > 0 { self.segment(ri - 1, lo, hi) } else { Seq::empty() };
            let b = if ri + 1 != self.spec_rows() { self.segment(ri + 1, lo, hi) } else { Seq::empty() };
            let l = if col_from > 0 { seq![self.entry(ri, col_from - 1)] } else { Seq::empty() };
            let rt = if col_to != self.spec_columns() { seq![self.entry(ri, col_to as int)] } else { Seq::empty() };
            assert(after_above =~= a);
            assert(after_below =~= a + b);
            assert(after_left =~= a + b + l);
            assert(out@ =~= a + b + l + rt);
        }
        out
    }

    /// The bytes around a horizontal span, in the order of
    /// `multi_column_neighbors_with_coordinates`.
    pub fn multi_column_neighbors(&self, row: usize, col_from: usize, col_to: usize) -> (r: Vec<u8>)
        requires
            self.wf(),
            self.rectangular(),
            row < self.spec_rows(),
            col_from < col_to <= self.spec_columns(),
        ensures
            r@ == self.perimeter(row as int, col_from as int, col_to as int).map_values(
                |e: (u8, usize, usize)| e.0,
            ),
    {
        let cells = self.multi_column_neighbors_with_coordinates(row, col_from, col_to);
        let mut out: Vec<u8> = Vec::new();
        let mut i: usize = 0;
        while i < cells.len()
            invariant
                i <= cells@.len(),
                out@ =~= cells@.subrange(0, i as int).map_values(|e: (u8, usize, usize)| e.0),
            decreases cells@.len() - i,
        {
            out.push(cells[i].0);
            i = i + 1;
        }
        proof {
            assert(cells@.subrange(0, cells@.len() as int) =~= cells@);
        }
        out
    }
}

/// Dividing by the row stride: one more row after each separator.
proof fn lemma_stride_step(n: int, d: int)
    requires
        n >= 1,
        d >= 1,
    ensures
        (n - 1) / d + (if (n - 1) % d == d - 1 {
            1int
        } else {
            0int
        }) == n / d,
{
    let q = (n - 1) / d;
    let r = (n - 1) % d;
    vstd::arithmetic::div_mod::lemma_mod_pos_bound(n - 1, d);
    assert(n - 1 == q * d + r) by {
        vstd::arithmetic::div_mod::lemma_fundamental_div_mod(n - 1, d);
        assert(d * q == q * d) by (nonlinear_arith);
    }
    if r == d - 1 {
        assert(n == (q + 1) * d + 0) by (nonlinear_arith)
            requires
                n - 1 == q * d + r,
                r == d - 1,
        ;
        lemma_fundamental_div_mod_converse(n, d, q + 1, 0);
    } else {
        lemma_fundamental_div_mod_converse(n, d, q, r + 1);
    }
}

/// In a rectangular grid the separators before offset `n` are one per full
/// row stride.
proof fn lemma_grid_newlines(s: Seq<u8>, rows: nat, columns: nat, n: int)
    requires
        is_grid(s, rows, columns),
        0 <= n <= s.len(),
    ensures
        newlines_before(s, n) == n / (columns + 1) as int,
    decreases n,
{
    let d = (columns + 1) as int;
    if n == 0 {
        assert(0int / d == 0) by (nonlinear_arith)
            requires
                d >= 1,
        ;
    } else {
        lemma_grid_newlines(s, rows, columns, n - 1);
        lemma_stride_step(n, d);
        assert(s[n - 1] == NEWLINE <==> (n - 1) % d == columns as int);
    }
}

/// Offset `q * d + r` of a grid with stride `d` is a separator exactly when
/// `r` is the last column.
proof fn lemma_grid_offset(s: Seq<u8>, rows: nat, columns: nat, q: int, r: int)
    requires
        is_grid(s, rows, columns),
        0 <= q,
        0 <= r <= columns,
        0 <= q * (columns + 1) + r < s.len(),
    ensures
        s[q * (columns + 1) + r] == NEWLINE <==> r == columns,
{
    lemma_fundamental_div_mod_converse(q * (columns + 1) + r, (columns + 1) as int, q, r);
}

/// A rectangular grid of two or more rows can be viewed: it ends with a row,
/// its first separator follows the first row, and it holds one separator
/// fewer than rows.
pub proof fn lemma_grid_layout(s: Seq<u8>, rows: nat, columns: nat)
    requires
        is_grid(s, rows, columns),
        rows >= 2,
    ensures
        !ends_with_newline(s),
        has_newline(s),
        is_first_newline(s, columns as int),
        newlines_before(s, s.len() as int) + 1 == rows,
{
    let d = (columns + 1) as int;
    assert((rows - 1) * d + d == rows * d) by (nonlinear_arith);
    assert(d <= (rows - 1) * d) by (nonlinear_arith)
        requires
            rows >= 2,
            d >= 1,
    ;
    lemma_grid_offset(s, rows, columns, 0, columns as int);
    assert forall|j: int| 0 <= j < columns implies s[j] != NEWLINE by {
        lemma_grid_offset(s, rows, columns, 0, j);
    }
    lemma_grid_offset(s, rows, columns, rows - 1, columns - 1);
    assert(s.last() == s[(rows - 1) * d + (columns - 1)]);
    assert(has_newline(s)) by {
        assert(s[columns as int] == NEWLINE);
    }
    lemma_grid_newlines(s, rows, columns, s.len() as int);
    lemma_fundamental_div_mod_converse(s.len() as int, d, rows - 1, columns as int);
}

/// The first separator of a buffer is unique.
proof fn lemma_first_newline_unique(s: Seq<u8>, a: int, b: int)
    requires
        is_first_newline(s, a),
        is_first_newline(s, b),
    ensures
        a == b,
{
}

/// A view of a rectangular buffer of `rows` rows of `columns` bytes reports
/// `rows` rows and `columns` columns, and each of its rows is `columns` bytes
/// long.
pub proof fn law_dimensions(g: ByteGridView, rows: nat, columns: nat)
    requires
        g.wf(),
        is_grid(g.bytes(), rows, columns),
    ensures
        g.spec_rows() == rows,
        g.spec_columns() == columns,
        g.rectangular(),
        forall|i: int| 0 <= i < rows ==> (#[trigger] g.row_bytes(i)).len() == columns,
{
    let s = g.bytes();
    assert(rows >= 2) by {
        if rows < 2 {
            assert(s.len() == columns) by (nonlinear_arith)
                requires
                    rows < 2,
                    rows >= 1,
                    s.len() + 1 == rows * (columns + 1),
            ;
            assert(s[g.spec_columns() as int] == NEWLINE);
            lemma_grid_offset(s, rows, columns, 0, g.spec_columns() as int);
        }
    }
    lemma_grid_layout(s, rows, columns);
    lemma_first_newline_unique(s, columns as int, g.spec_columns() as int);
    assert forall|i: int| 0 <= i < rows implies (#[trigger] g.row_bytes(i)).len() == columns by {
        lemma_row_in_bounds(rows, columns, i as nat);
    }
}

/// Every rectangular buffer of two or more rows can be viewed as a grid.
pub proof fn law_rectangular_accepted(s: Seq<u8>, rows: nat, columns: nat)
    requires
        is_grid(s, rows, columns),
        rows >= 2,
    ensures
        !ends_with_newline(s),
        has_newline(s),
        !starts_with_newline(s),
        grid_error(s) is None,
{
    lemma_grid_layout(s, rows, columns);
}

/// The first `k` rows joined by separators are the buffer up to the end of
/// row `k - 1`.
proof fn lemma_joined_prefix(g: ByteGridView, k: int)
    requires
        g.wf(),
        g.rectangular(),
        1 <= k <= g.spec_rows(),
    ensures
        g.joined_rows(k) == g.bytes().subrange(0, k * (g.spec_columns() + 1) - 1),
    decreases k,
{
    let c = g.spec_columns() as int;
    let d = c + 1;
    lemma_row_in_bounds(g.spec_rows(), g.spec_columns(), (k - 1) as nat);
    assert((k - 1) * d + d == k * d) by (nonlinear_arith);
    if k == 1 {
        assert(0 * d == 0);
        assert(g.row_bytes(0) =~= g.bytes().subrange(0, d - 1));
    } else {
        lemma_joined_prefix(g, k - 1);
        assert((k - 2) * d + d == (k - 1) * d) by (nonlinear_arith);
        assert(0 <= (k - 2) * d) by (nonlinear_arith)
            requires
                k >= 2,
                d >= 1,
        ;
        lemma_grid_offset(g.bytes(), g.spec_rows(), g.spec_columns(), k - 2, c);
        assert(g.joined_rows(k) =~= g.bytes().subrange(0, k * d - 1));
    }
}

/// Joining all rows with separators gives back the buffer.
pub proof fn law_rows_round_trip(g: ByteGridView)
    requires
        g.wf(),
        g.rectangular(),
    ensures
        g.joined_rows(g.spec_rows() as int) == g.bytes(),
{
    lemma_joined_prefix(g, g.spec_rows() as int);
    assert(g.bytes().subrange(0, g.bytes().len() as int) =~= g.bytes());
}

/// The first row is the top edge and the last the bottom edge; a row is both
/// only in a grid of one row, a column both left and right only in a grid of
/// one column.
pub proof fn law_edges(g: ByteGridView, r: int, c: int)
    requires
        g.wf(),
    ensures
        g.top_edge(0),
        g.bottom_edge(g.spec_rows() - 1),
        g.top_edge(r) && g.bottom_edge(r) ==> g.spec_rows() == 1,
        g.left_edge(c) && g.right_edge(c) ==> g.spec_columns() == 1,
{
}

/// A cell away from every edge has four neighbours; a corner cell of a grid
/// at least two cells wide has two.
pub proof fn law_four_neighbor_count(g: ByteGridView, row: int, col: int)
    requires
        g.wf(),
        0 <= row < g.spec_rows(),
        0 <= col < g.spec_columns(),
    ensures
        0 < row < g.spec_rows() - 1 && 0 < col < g.spec_columns() - 1 ==> g.four_neighbors(
            row,
            col,
        ).len() == 4,
        g.spec_columns() >= 2 && (row == 0 || row == g.spec_rows() - 1) && (col == 0 || col
            == g.spec_columns() - 1) ==> g.four_neighbors(row, col).len() == 2,
{
    assert(g.spec_rows() >= 2) by {
        lemma_newline_counted(g.bytes(), g.spec_columns() as int, g.bytes().len() as int);
    }
}

/// A separator at offset `i` is counted before any later offset.
proof fn lemma_newline_counted(s: Seq<u8>, i: int, n: int)
    requires
        0 <= i < n <= s.len(),
        s[i] == NEWLINE,
    ensures
        newlines_before(s, n) >= 1,
    decreases n,
{
    if n - 1 > i {
        lemma_newline_counted(s, i, n - 1);
    }
}

/// Every four-directional neighbour of a cell is among the cells around the
/// one-column span of that cell.
pub proof fn law_single_span_covers_four_neighbors(g: ByteGridView, row: int, col: int)
    requires
        g.wf(),
        0 <= row < g.spec_rows(),
        0 <= col < g.spec_columns(),
    ensures
        forall|e: (u8, usize, usize)| #[trigger]
            g.four_neighbors(row, col).contains(e) ==> g.perimeter(row, col, col + 1).contains(e),
{
    let four = g.four_neighbors(row, col);
    let per = g.perimeter(row, col, col + 1);
    let lo = g.span_lo(col);
    let hi = g.span_hi(col + 1);
    let a = if row > 0 { g.segment(row - 1, lo, hi) } else { Seq::empty() };
    let b = if row + 1 != g.spec_rows() { g.segment(row + 1, lo, hi) } else { Seq::empty() };
    let l = if col > 0 { seq![g.entry(row, col - 1)] } else { Seq::empty() };
    let rt = if col + 1 != g.spec_columns() { seq![g.entry(row, col + 1)] } else { Seq::empty() };
    assert(per == a + b + l + rt);
    assert forall|e: (u8, usize, usize)| #[trigger] four.contains(e) implies per.contains(e) by {
        let k = choose|k: int| 0 <= k < four.len() && four[k] == e;
        if col > 0 && e == g.entry(row, col - 1) {
            assert(per[(a.len() + b.len()) as int] == e);
        } else if col + 1 != g.spec_columns() && e == g.entry(row, col + 1) {
            assert(per[(a.len() + b.len() + l.len()) as int] == e);
        } else if row > 0 && e == g.entry(row - 1, col) {
            assert(a[col - lo] == e);
            assert(per[col - lo] == e);
        } else {
            assert(row + 1 != g.spec_rows() && e == g.entry(row + 1, col));
            assert(b[col - lo] == e);
            assert(per[a.len() + col - lo] == e);
        }
    }
}

/// In a grid one column wide, the cells around a cell's one-column span are
/// its four-directional neighbours.
pub proof fn law_single_span_matches_four_neighbors(g: ByteGridView, row: int, col: int)
    requires
        g.wf(),
        g.spec_columns() == 1,
        0 <= row < g.spec_rows(),
        0 <= col < g.spec_columns(),
    ensures
        g.perimeter(row, col, col + 1) == g.four_neighbors(row, col),
{
    assert(g.perimeter(row, col, col + 1) =~= g.four_neighbors(row, col));
}

} // verus!
