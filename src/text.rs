//! Byte-level helpers for reading puzzle text: splitting on a separator and
//! reading decimal numbers.

use vstd::prelude::*;
use vstd::slice::slice_subrange;

verus! {

/// `b` is an ASCII decimal digit.
pub open spec fn is_digit(b: u8) -> bool {
    48 <= b <= 57
}

/// Every byte of `s` is a decimal digit.
pub open spec fn all_digits(s: Seq<u8>) -> bool {
    forall|i: int| 0 <= i < s.len() ==> is_digit(#[trigger] s[i])
}

/// The value of the digits of `s`, most significant first.
pub open spec fn decimal(s: Seq<u8>) -> int
    decreases s.len(),
{
    if s.len() == 0 {
        0
    } else {
        decimal(s.drop_last()) * 10 + (s.last() as int - 48)
    }
}

/// The pieces of `s` between occurrences of `sep`: one more piece than there
/// are separators, each possibly empty.
pub open spec fn pieces(s: Seq<u8>, sep: u8) -> Seq<Seq<u8>>
    decreases s.len(),
{
    if s.len() == 0 {
        seq![Seq::empty()]
    } else {
        let p = pieces(s.drop_last(), sep);
        if s.last() == sep {
            p.push(Seq::empty())
        } else {
            p.update(p.len() - 1, p.last().push(s.last()))
        }
    }
}

/// The longest puzzle input that the answers are proved to fit for.
pub const MAX_INPUT: usize = 0xFFFF_FFFF;

/// The views of a sequence of byte vectors.
pub open spec fn views(v: Seq<Vec<u8>>) -> Seq<Seq<u8>> {
    v.map_values(|x: Vec<u8>| x@)
}

/// There is always at least one piece.
pub proof fn lemma_pieces_nonempty(s: Seq<u8>, sep: u8)
    ensures
        pieces(s, sep).len() >= 1,
    decreases s.len(),
{
    if s.len() > 0 {
        lemma_pieces_nonempty(s.drop_last(), sep);
    }
}

/// A buffer has at most one more piece than it has bytes.
pub proof fn lemma_pieces_count(s: Seq<u8>, sep: u8)
    ensures
        pieces(s, sep).len() <= s.len() + 1,
    decreases s.len(),
{
    if s.len() > 0 {
        lemma_pieces_count(s.drop_last(), sep);
        lemma_pieces_nonempty(s.drop_last(), sep);
    }
}

/// A longer run of digits is worth at least as much as its prefix.
pub proof fn lemma_decimal_prefix(s: Seq<u8>, i: int, j: int)
    requires
        all_digits(s),
        0 <= i <= j <= s.len(),
    ensures
        0 <= decimal(s.subrange(0, i)) <= decimal(s.subrange(0, j)),
    decreases j,
{
    if j > 0 {
        assert(s.subrange(0, j).drop_last() =~= s.subrange(0, j - 1));
        if i < j {
            lemma_decimal_prefix(s, i, j - 1);
        } else {
            lemma_decimal_prefix(s, j - 1, j - 1);
        }
    } else {
        assert(s.subrange(0, 0).len() == 0);
    }
}

/// Splits `s` at every occurrence of `sep`.
pub fn split_on(s: &[u8], sep: u8) -> (r: Vec<Vec<u8>>)
    ensures
        views(r@) == pieces(s@, sep),
{
    let mut out: Vec<Vec<u8>> = Vec::new();
    let mut cur: Vec<u8> = Vec::new();
    let mut i: usize = 0;
    while i < s.len()
        invariant
            i <= s@.len(),
            pieces(s@.subrange(0, i as int), sep) == views(out@).push(cur@),
        decreases s@.len() - i,
    {
        proof {
            assert(s@.subrange(0, i + 1).drop_last() =~= s@.subrange(0, i as int));
            lemma_pieces_nonempty(s@.subrange(0, i as int), sep);
        }
        if s[i] == sep {
            out.push(cur);
            cur = Vec::new();
            proof {
                assert(views(out@).push(cur@) =~= pieces(s@.subrange(0, i + 1), sep));
            }
        } else {
            cur.push(s[i]);
            proof {
                assert(views(out@).push(cur@) =~= pieces(s@.subrange(0, i + 1), sep));
            }
        }
        i = i + 1;
    }
    out.push(cur);
    proof {
        assert(s@.subrange(0, s@.len() as int) =~= s@);
        assert(views(out@) =~= pieces(s@, sep));
    }
    out
}

/// The line separator.
pub const NEWLINE: u8 = 10;

/// The lines of `s`: the pieces between line separators, where a separator at
/// the very end closes the last line instead of opening an empty one, and an
/// empty text has no lines.
pub open spec fn lines(s: Seq<u8>) -> Seq<Seq<u8>> {
    if s.len() == 0 {
        Seq::empty()
    } else if s.last() == NEWLINE {
        pieces(s.drop_last(), NEWLINE)
    } else {
        pieces(s, NEWLINE)
    }
}

/// Splits `s` into its lines.
pub fn split_lines(s: &[u8]) -> (r: Vec<Vec<u8>>)
    ensures
        views(r@) == lines(s@),
{
    let n = s.len();
    if n == 0 {
        let out: Vec<Vec<u8>> = Vec::new();
        proof {
            assert(views(out@) =~= lines(s@));
        }
        out
    } else if s[n - 1] == NEWLINE {
        let body = slice_subrange(s, 0, n - 1);
        proof {
            assert(body@ =~= s@.drop_last());
        }
        split_on(body, NEWLINE)
    } else {
        split_on(s, NEWLINE)
    }
}

/// A copy of the bytes of `s` from offset `lo` up to, not including, `hi`.
pub fn copy_range(s: &[u8], lo: usize, hi: usize) -> (r: Vec<u8>)
    requires
        lo <= hi <= s@.len(),
    ensures
        r@ == s@.subrange(lo as int, hi as int),
{
    let mut out: Vec<u8> = Vec::new();
    let mut i: usize = lo;
    while i < hi
        invariant
            lo <= i <= hi <= s@.len(),
            out@ == s@.subrange(lo as int, i as int),
        decreases hi - i,
    {
        out.push(s[i]);
        proof {
            assert(out@ =~= s@.subrange(lo as int, i + 1));
        }
        i = i + 1;
    }
    out
}

/// `s` holds the two bytes `a` then `b` at offset `i`.
pub open spec fn pair_at(s: Seq<u8>, a: u8, b: u8, i: int) -> bool {
    0 <= i && i + 1 < s.len() && s[i] == a && s[i + 1] == b
}

/// The pieces of `s` from offset `start`, scanning from offset `i` for the
/// separator `a` `b`; each separator found is skipped whole before the scan
/// goes on.
pub open spec fn pair_pieces_from(s: Seq<u8>, a: u8, b: u8, start: int, i: int) -> Seq<Seq<u8>>
    decreases s.len() - i,
{
    if i + 1 >= s.len() || i < start || start < 0 {
        seq![s.subrange(start, s.len() as int)]
    } else if pair_at(s, a, b, i) {
        seq![s.subrange(start, i)] + pair_pieces_from(s, a, b, i + 2, i + 2)
    } else {
        pair_pieces_from(s, a, b, start, i + 1)
    }
}

/// The pieces of `s` between the occurrences of the two-byte separator `a`
/// `b`, found from left to right without overlap.
pub open spec fn pair_pieces(s: Seq<u8>, a: u8, b: u8) -> Seq<Seq<u8>> {
    pair_pieces_from(s, a, b, 0, 0)
}

/// Splits `s` at every occurrence of the two-byte separator `a` `b`.
pub fn split_on_pair(s: &[u8], a: u8, b: u8) -> (r: Vec<Vec<u8>>)
    ensures
        views(r@) == pair_pieces(s@, a, b),
{
    let mut out: Vec<Vec<u8>> = Vec::new();
    let mut start: usize = 0;
    let mut i: usize = 0;
    while i < s.len() && s.len() - i > 1
        invariant
            start <= i <= s@.len(),
            pair_pieces(s@, a, b) == views(out@) + pair_pieces_from(s@, a, b, start as int, i as int),
        decreases s@.len() - i,
    {
        if s[i] == a && s[i + 1] == b {
            let piece = copy_range(s, start, i);
            proof {
                assert(views(out@.push(piece)) =~= views(out@).push(piece@));
                assert(seq![s@.subrange(start as int, i as int)] + pair_pieces_from(s@, a, b, i + 2, i + 2)
                    == pair_pieces_from(s@, a, b, start as int, i as int));
                assert(views(out@).push(piece@) + pair_pieces_from(s@, a, b, i + 2, i + 2) =~= views(out@)
                    + pair_pieces_from(s@, a, b, start as int, i as int));
            }
            out.push(piece);
            i = i + 2;
            start = i;
        } else {
            i = i + 1;
        }
    }
    let last = copy_range(s, start, s.len());
    proof {
        assert(pair_pieces_from(s@, a, b, start as int, i as int) == seq![s@.subrange(start as int, s@.len() as int)]);
        assert(views(out@.push(last)) =~= views(out@).push(last@));
        assert(views(out@).push(last@) =~= views(out@) + pair_pieces_from(s@, a, b, start as int, i as int));
    }
    out.push(last);
    out
}

/// The offset of the first occurrence of `a` `b` at or after offset `i`,
/// or -1 when there is none.
pub open spec fn first_pair_from(s: Seq<u8>, a: u8, b: u8, i: int) -> int
    decreases s.len() - i,
{
    if i < 0 || i + 1 >= s.len() {
        -1
    } else if pair_at(s, a, b, i) {
        i
    } else {
        first_pair_from(s, a, b, i + 1)
    }
}

/// Splits `s` around the first occurrence of the two-byte separator `a` `b`:
/// the bytes before it and the bytes after it, or `None` when it does not
/// occur.
pub fn split_once_pair(s: &[u8], a: u8, b: u8) -> (r: Option<(Vec<u8>, Vec<u8>)>)
    ensures
        match r {
            Some((head, tail)) => {
                let k = first_pair_from(s@, a, b, 0);
                &&& k >= 0
                &&& head@ == s@.subrange(0, k)
                &&& tail@ == s@.subrange(k + 2, s@.len() as int)
            },
            None => first_pair_from(s@, a, b, 0) == -1,
        },
{
    let mut i: usize = 0;
    while i < s.len() && s.len() - i > 1
        invariant
            i <= s@.len(),
            first_pair_from(s@, a, b, 0) == first_pair_from(s@, a, b, i as int),
        decreases s@.len() - i,
    {
        if s[i] == a && s[i + 1] == b {
            return Some((copy_range(s, 0, i), copy_range(s, i + 2, s.len())));
        }
        i = i + 1;
    }
    None
}

/// The offset of the first occurrence of `b` in `s`, or -1 when there is
/// none.
pub open spec fn first_index_of(s: Seq<u8>, b: u8) -> int {
    if exists|i: int| 0 <= i < s.len() && s[i] == b {
        choose|i: int| 0 <= i < s.len() && s[i] == b && forall|j: int| 0 <= j < i ==> s[j] != b
    } else {
        -1
    }
}

/// Splits `s` around the first occurrence of `b`: the bytes before it and
/// the bytes after it, or `None` when it does not occur.
pub fn split_once_byte(s: &[u8], b: u8) -> (r: Option<(Vec<u8>, Vec<u8>)>)
    ensures
        match r {
            Some((head, tail)) => {
                let k = first_index_of(s@, b);
                &&& 0 <= k < s@.len()
                &&& head@ == s@.subrange(0, k)
                &&& tail@ == s@.subrange(k + 1, s@.len() as int)
            },
            None => first_index_of(s@, b) == -1,
        },
{
    let n = s.len();
    match crate::grid::find_byte(b, s) {
        Some(i) => {
            proof {
                let k = first_index_of(s@, b);
                assert(0 <= k < s@.len() && s@[k] == b && forall|j: int| 0 <= j < k ==> s@[j] != b);
                if k < i {
                    assert(s@[k] != b);
                }
                if i < k {
                    assert(s@[i as int] != b);
                }
            }
            Some((copy_range(s, 0, i), copy_range(s, i + 1, n)))
        },
        None => None,
    }
}

/// The word separator.
pub const SPACE: u8 = 32;

/// The words of `s`: its maximal runs of bytes other than spaces.
pub open spec fn words(s: Seq<u8>) -> Seq<Seq<u8>>
    decreases s.len(),
{
    if s.len() == 0 {
        Seq::empty()
    } else {
        let w = words(s.drop_last());
        if s.last() == SPACE {
            w
        } else if s.len() >= 2 && s[s.len() - 2] != SPACE {
            w.update(w.len() - 1, w.last().push(s.last()))
        } else {
            w.push(seq![s.last()])
        }
    }
}

/// Splits `s` into its words.
pub fn split_words(s: &[u8]) -> (r: Vec<Vec<u8>>)
    ensures
        views(r@) == words(s@),
{
    let mut out: Vec<Vec<u8>> = Vec::new();
    let mut cur: Vec<u8> = Vec::new();
    let mut i: usize = 0;
    while i < s.len()
        invariant
            i <= s@.len(),
            cur@.len() > 0 <==> (i > 0 && s@[i - 1] != SPACE),
            words(s@.subrange(0, i as int)) == if cur@.len() > 0 {
                views(out@).push(cur@)
            } else {
                views(out@)
            },
        decreases s@.len() - i,
    {
        proof {
            let t = s@.subrange(0, i + 1);
            assert(t.drop_last() =~= s@.subrange(0, i as int));
            if i > 0 {
                assert(t[t.len() - 2] == s@[i - 1]);
            }
        }
        if s[i] == SPACE {
            if cur.len() > 0 {
                out.push(cur);
                cur = Vec::new();
            }
            proof {
                assert(views(out@) =~= words(s@.subrange(0, i + 1)));
            }
        } else {
            let ghost before = cur@;
            cur.push(s[i]);
            proof {
                let t = s@.subrange(0, i + 1);
                let w = words(s@.subrange(0, i as int));
                if before.len() > 0 {
                    assert(w == views(out@).push(before));
                    assert(w.last() == before);
                    assert(words(t) == w.update(w.len() - 1, before.push(s@[i as int])));
                } else {
                    assert(w == views(out@));
                    assert(words(t) == w.push(seq![s@[i as int]]));
                    assert(cur@ =~= seq![s@[i as int]]);
                }
                assert(views(out@).push(cur@) =~= words(t));
            }
        }
        i = i + 1;
    }
    if cur.len() > 0 {
        out.push(cur);
    }
    proof {
        assert(s@.subrange(0, s@.len() as int) =~= s@);
        assert(views(out@) =~= words(s@));
    }
    out
}

/// The minus sign.
pub const MINUS: u8 = 45;

/// The plus sign.
pub const PLUS: u8 = 43;

/// The digits of a number written with an optional sign.
pub open spec fn unsigned_part(w: Seq<u8>) -> Seq<u8> {
    if w.len() > 0 && (w[0] == MINUS || w[0] == PLUS) {
        w.subrange(1, w.len() as int)
    } else {
        w
    }
}

/// `w` is a number with an optional sign whose magnitude fits in an `i64`.
pub open spec fn is_signed_number(w: Seq<u8>) -> bool {
    &&& unsigned_part(w).len() > 0
    &&& all_digits(unsigned_part(w))
    &&& decimal(unsigned_part(w)) <= i64::MAX
}

/// The value of a number with an optional sign.
pub open spec fn signed_value(w: Seq<u8>) -> int {
    if w.len() > 0 && w[0] == MINUS {
        -decimal(unsigned_part(w))
    } else {
        decimal(unsigned_part(w))
    }
}

/// `w` is a number that fits in an `i32`.
pub open spec fn is_i32_number(w: Seq<u8>) -> bool {
    is_signed_number(w) && i32::MIN <= signed_value(w) <= i32::MAX
}

/// Reads a number with an optional sign.
pub fn parse_signed(w: &[u8]) -> (r: i64)
    requires
        is_signed_number(w@),
    ensures
        r == signed_value(w@),
        r >= -i64::MAX,
{
    let digits = if w[0] == MINUS || w[0] == PLUS {
        slice_subrange(w, 1, w.len())
    } else {
        w
    };
    let v = digits.parse_int();
    proof {
        lemma_decimal_prefix(digits@, 0, digits@.len() as int);
        assert(digits@.subrange(0, digits@.len() as int) =~= digits@);
    }
    if w[0] == MINUS {
        -v
    } else {
        v
    }
}

/// Reading the digits of a value as a number.
pub trait MoreItertools {
    /// The digits that `parse_int` reads.
    spec fn digit_bytes(&self) -> Seq<u8>;

    /// The value of the digits, most significant first.
    fn parse_int(&self) -> (r: i64)
        requires
            all_digits(self.digit_bytes()),
            decimal(self.digit_bytes()) <= i64::MAX,
        ensures
            r == decimal(self.digit_bytes()),
    ;
}

impl MoreItertools for [u8] {
    open spec fn digit_bytes(&self) -> Seq<u8> {
        self@
    }

    fn parse_int(&self) -> (r: i64) {
        let mut value: i64 = 0;
        let mut i: usize = 0;
        while i < self.len()
            invariant
                i <= self@.len(),
                all_digits(self@),
                decimal(self@) <= i64::MAX,
                value == decimal(self@.subrange(0, i as int)),
            decreases self@.len() - i,
        {
            proof {
                lemma_decimal_prefix(self@, i + 1, self@.len() as int);
                assert(self@.subrange(0, self@.len() as int) =~= self@);
                assert(self@.subrange(0, i + 1).drop_last() =~= self@.subrange(0, i as int));
                assert(is_digit(self@[i as int]));
            }
            value = value * 10 + (self[i] - 48u8) as i64;
            i = i + 1;
        }
        proof {
            assert(self@.subrange(0, self@.len() as int) =~= self@);
        }
        value
    }
}

} // verus!
