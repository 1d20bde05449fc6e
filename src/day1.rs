//! Calibration values: the first and the last digit of each line.

use crate::text::is_digit;
use crate::text::lines;
use crate::text::split_lines;
use crate::text::views;
use vstd::prelude::*;
use vstd::slice::slice_subrange;
use vstd::string::StringSliceAdditionalSpecFns;

verus! {

/// The digits of `line`, in order.
pub open spec fn digits_of(line: Seq<u8>) -> Seq<u8>
    decreases line.len(),
{
    if line.len() == 0 {
        Seq::empty()
    } else if is_digit(line.last()) {
        digits_of(line.drop_last()).push(line.last())
    } else {
        digits_of(line.drop_last())
    }
}

/// The calibration value of a line: its first digit then its last digit, read
/// as a two-digit number.
pub open spec fn calibration(line: Seq<u8>) -> int {
    let d = digits_of(line);
    (d[0] as int - 48) * 10 + (d.last() as int - 48)
}

/// The sum of the calibration values of the lines.
pub open spec fn sum_of_calibrations(ls: Seq<Seq<u8>>) -> int
    decreases ls.len(),
{
    if ls.len() == 0 {
        0
    } else {
        sum_of_calibrations(ls.drop_last()) + calibration(ls.last())
    }
}

/// Every digit collected is a digit.
proof fn lemma_digits_of(line: Seq<u8>)
    ensures
        forall|i: int| 0 <= i < digits_of(line).len() ==> is_digit(#[trigger] digits_of(line)[i]),
    decreases line.len(),
{
    if line.len() > 0 {
        lemma_digits_of(line.drop_last());
        let d = digits_of(line);
        let p = digits_of(line.drop_last());
        assert forall|i: int| 0 <= i < d.len() implies is_digit(#[trigger] d[i]) by {
            if i < p.len() {
                assert(d[i] == p[i]);
            }
        }
    }
}

/// Sums of calibration values only grow.
proof fn lemma_sum_grows(ls: Seq<Seq<u8>>, i: int, j: int)
    requires
        0 <= i <= j <= ls.len(),
        forall|k: int| 0 <= k < ls.len() ==> digits_of(#[trigger] ls[k]).len() > 0,
    ensures
        0 <= sum_of_calibrations(ls.subrange(0, i)) <= sum_of_calibrations(ls.subrange(0, j)),
    decreases j,
{
    if j > 0 {
        assert(ls.subrange(0, j).drop_last() =~= ls.subrange(0, j - 1));
        lemma_digits_of(ls[j - 1]);
        assert(is_digit(digits_of(ls[j - 1])[0]));
        if i < j {
            lemma_sum_grows(ls, i, j - 1);
        } else {
            lemma_sum_grows(ls, j - 1, j - 1);
        }
    }
}

/// The calibration value of one line.
fn line_calibration(line: &[u8]) -> (r: i32)
    requires
        digits_of(line@).len() > 0,
    ensures
        r == calibration(line@),
{
    let mut first: u8 = 0;
    let mut last: u8 = 0;
    let mut found = false;
    let mut i: usize = 0;
    while i < line.len()
        invariant
            i <= line@.len(),
            found == (digits_of(line@.subrange(0, i as int)).len() > 0),
            found ==> first == digits_of(line@.subrange(0, i as int))[0],
            found ==> last == digits_of(line@.subrange(0, i as int)).last(),
        decreases line@.len() - i,
    {
        proof {
            assert(line@.subrange(0, i + 1).drop_last() =~= line@.subrange(0, i as int));
        }
        let c = line[i];
        if 48 <= c && c <= 57 {
            if !found {
                first = c;
                found = true;
            }
            last = c;
        }
        i = i + 1;
    }
    proof {
        assert(line@.subrange(0, line@.len() as int) =~= line@);
        lemma_digits_of(line@);
        assert(is_digit(digits_of(line@)[0]));
        assert(is_digit(digits_of(line@).last()));
    }
    (first - 48) as i32 * 10 + (last - 48) as i32
}

/// The sum over the lines of `input` of the calibration values, each made of
/// the line's first and last digit.
pub fn part1(input: &str) -> (r: i32)
    requires
        forall|k: int|
            0 <= k < lines(input.spec_bytes()).len() ==> digits_of(
                #[trigger] lines(input.spec_bytes())[k],
            ).len() > 0,
        sum_of_calibrations(lines(input.spec_bytes())) <= i32::MAX,
    ensures
        r == sum_of_calibrations(lines(input.spec_bytes())),
{
    let ls = split_lines(input.as_bytes());
    let ghost all = lines(input.spec_bytes());
    proof {
        assert(views(ls@).len() == ls@.len());
    }
    let mut sum: i32 = 0;
    let mut i: usize = 0;
    while i < ls.len()
        invariant
            i <= ls@.len(),
            views(ls@) == all,
            forall|k: int| 0 <= k < all.len() ==> digits_of(#[trigger] all[k]).len() > 0,
            sum_of_calibrations(all) <= i32::MAX,
            sum == sum_of_calibrations(all.subrange(0, i as int)),
        decreases ls@.len() - i,
    {
        proof {
            assert(all[i as int] == ls@[i as int]@);
        }
        let v = line_calibration(ls[i].as_slice());
        proof {
            assert(all.subrange(0, i + 1).drop_last() =~= all.subrange(0, i as int));
            lemma_sum_grows(all, i + 1, all.len() as int);
            assert(all.subrange(0, all.len() as int) =~= all);
        }
        sum = sum + v;
        i = i + 1;
    }
    proof {
        assert(all.subrange(0, all.len() as int) =~= all);
    }
    sum
}

/// The patterns searched for: the words `zero` through `nine`, then the
/// digits `0` through `9`.
pub open spec fn pattern(p: int) -> Seq<u8> {
    if p == 0 {
        seq![122u8, 101, 114, 111]
    } else if p == 1 {
        seq![111u8, 110, 101]
    } else if p == 2 {
        seq![116u8, 119, 111]
    } else if p == 3 {
        seq![116u8, 104, 114, 101, 101]
    } else if p == 4 {
        seq![102u8, 111, 117, 114]
    } else if p == 5 {
        seq![102u8, 105, 118, 101]
    } else if p == 6 {
        seq![115u8, 105, 120]
    } else if p == 7 {
        seq![115u8, 101, 118, 101, 110]
    } else if p == 8 {
        seq![101u8, 105, 103, 104, 116]
    } else if p == 9 {
        seq![110u8, 105, 110, 101]
    } else {
        seq![(48 + p - 10) as u8]
    }
}

/// Pattern `p` occurs in `s`, ending at offset `e`.
pub open spec fn ends_at(s: Seq<u8>, p: int, e: int) -> bool {
    &&& 0 <= p < 20
    &&& pattern(p).len() <= e <= s.len()
    &&& s.subrange(e - pattern(p).len(), e) == pattern(p)
}

/// Some pattern occurs in `s`.
pub open spec fn has_pattern(s: Seq<u8>) -> bool {
    exists|p: int, e: int| ends_at(s, p, e)
}

/// The match that the digit searcher reports first in `haystack`: the
/// pattern and the offset at which the match ends.
pub uninterp spec fn digit_match(haystack: Seq<u8>) -> Option<(int, int)>;

/// Relies on aho_corasick::AhoCorasick::new and AhoCorasick::find, with the
/// default standard match semantics: the first match seen of one of the
/// patterns, given by pattern number and end offset, or `None` when no
/// pattern occurs.
#[verifier::external_body]
fn find_digit(patterns: &[Vec<u8>], haystack: &[u8]) -> (r: Option<(usize, usize)>)
    requires
        patterns@.len() == 20,
        forall|k: int| 0 <= k < 20 ==> (#[trigger] patterns@[k])@ == pattern(k),
    ensures
        match r {
            Some((p, e)) => digit_match(haystack@) == Some((p as int, e as int)) && ends_at(
                haystack@,
                p as int,
                e as int,
            ),
            None => digit_match(haystack@) is None && !has_pattern(haystack@),
        },
{
    let ac = aho_corasick::AhoCorasick::new(patterns).unwrap();
    ac.find(haystack).map(|m| (m.pattern().as_usize(), m.end()))
}

/// The patterns searched for, in order.
fn digit_patterns() -> (r: Vec<Vec<u8>>)
    ensures
        r@.len() == 20,
        forall|k: int| 0 <= k < 20 ==> (#[trigger] r@[k])@ == pattern(k),
{
    let r = vec![
        vec![122u8, 101, 114, 111],
        vec![111u8, 110, 101],
        vec![116u8, 119, 111],
        vec![116u8, 104, 114, 101, 101],
        vec![102u8, 111, 117, 114],
        vec![102u8, 105, 118, 101],
        vec![115u8, 105, 120],
        vec![115u8, 101, 118, 101, 110],
        vec![101u8, 105, 103, 104, 116],
        vec![110u8, 105, 110, 101],
        vec![48u8],
        vec![49u8],
        vec![50u8],
        vec![51u8],
        vec![52u8],
        vec![53u8],
        vec![54u8],
        vec![55u8],
        vec![56u8],
        vec![57u8],
    ];
    proof {
        assert forall|k: int| 0 <= k < 20 implies (#[trigger] r@[k])@ == pattern(k) by {
            assert(r@[k]@ =~= pattern(k));
        }
    }
    r
}

/// Where reading goes on after a match of pattern `p` ending `end` bytes
/// after `index`, and the digit the match stands for. A word's last letter
/// may start the next word, so reading goes on from that letter.
pub open spec fn step_of(index: int, p: int, end: int) -> (int, int) {
    if p <= 9 {
        (index + end - 1, p)
    } else {
        (index + end, p - 10)
    }
}

/// The digits read from `line`, from offset `index` on.
pub open spec fn digits_read(line: Seq<u8>, index: int) -> Seq<int>
    decreases line.len() - index,
{
    if index < 0 || index > line.len() {
        Seq::empty()
    } else {
        match digit_match(line.subrange(index, line.len() as int)) {
            None => Seq::empty(),
            Some((p, e)) => if 0 <= p < 20 && 1 <= e <= line.len() - index && (p <= 9 ==> e >= 2) {
                let (next, d) = step_of(index, p, e);
                seq![d] + digits_read(line, next)
            } else {
                Seq::empty()
            },
        }
    }
}

/// The calibration value of a line read with digit words: its first digit
/// then its last digit.
pub open spec fn word_calibration(line: Seq<u8>) -> int {
    let d = digits_read(line, 0);
    d[0] * 10 + d.last()
}

/// The sum of the calibration values of the lines read with digit words.
pub open spec fn sum_of_word_calibrations(ls: Seq<Seq<u8>>) -> int
    decreases ls.len(),
{
    if ls.len() == 0 {
        0
    } else {
        sum_of_word_calibrations(ls.drop_last()) + word_calibration(ls.last())
    }
}

/// The longest list of lines whose calibration values are proved to fit an
/// `i32`.
pub const MAX_LINES: usize = 20_000_000;

/// Where reading goes on after a match of pattern `pattern` ending `end`
/// bytes after `index`, and the digit that the match stands for.
pub fn step(index: usize, pattern: usize, end: usize) -> (r: (usize, i32))
    requires
        pattern < 20,
        1 <= end,
        index + end <= usize::MAX,
    ensures
        (r.0 as int, r.1 as int) == step_of(index as int, pattern as int, end as int),
{
    if pattern <= 9 {
        (index + end - 1, pattern as i32)
    } else {
        (index + end, (pattern - 10) as i32)
    }
}

/// Words are at least three letters long; digits are one byte.
proof fn lemma_pattern_len(p: int)
    requires
        0 <= p < 20,
    ensures
        p <= 9 ==> pattern(p).len() >= 3,
        p >= 10 ==> pattern(p).len() == 1,
{
}

/// Every digit read is from 0 through 9.
proof fn lemma_digits_read(line: Seq<u8>, index: int)
    ensures
        forall|k: int| 0 <= k < digits_read(line, index).len() ==> 0 <= #[trigger] digits_read(line, index)[k] <= 9,
    decreases line.len() - index,
{
    if !(index < 0 || index > line.len()) {
        match digit_match(line.subrange(index, line.len() as int)) {
            None => {},
            Some((p, e)) => {
                if 0 <= p < 20 && 1 <= e <= line.len() - index && (p <= 9 ==> e >= 2) {
                    let (next, d) = step_of(index, p, e);
                    lemma_digits_read(line, next);
                    let rest = digits_read(line, next);
                    assert forall|k: int| 0 <= k < digits_read(line, index).len() implies 0
                        <= #[trigger] digits_read(line, index)[k] <= 9 by {
                        if k > 0 {
                            assert(digits_read(line, index)[k] == rest[k - 1]);
                        }
                    }
                }
            },
        }
    }
}

/// The calibration value of one line read with digit words.
fn word_line_value(patterns: &Vec<Vec<u8>>, line: &[u8]) -> (r: i32)
    requires
        patterns@.len() == 20,
        forall|k: int| 0 <= k < 20 ==> (#[trigger] patterns@[k])@ == pattern(k),
        has_pattern(line@),
    ensures
        r == word_calibration(line@),
        0 <= r <= 99,
{
    let n = line.len();
    let ghost all = digits_read(line@, 0);
    let ghost mut seen: Seq<int> = Seq::empty();
    let mut first: i32 = 0;
    let mut last: i32 = 0;
    let mut index: usize = 0;
    let mut done = false;
    while !done
        invariant
            patterns@.len() == 20,
            forall|k: int| 0 <= k < 20 ==> (#[trigger] patterns@[k])@ == pattern(k),
            n == line@.len(),
            index <= n,
            all == digits_read(line@, 0),
            done ==> all == seen,
            !done ==> all == seen + digits_read(line@, index as int),
            seen.len() > 0 ==> first == seen[0] && last == seen.last(),
            index > 0 ==> seen.len() > 0,
            index == 0 && !done ==> seen.len() == 0,
            !done && index == 0 ==> has_pattern(line@),
            done ==> index > 0,
        decreases n - index + if done { 0int } else { 1int },
    {
        let seg = slice_subrange(line, index, n);
        match find_digit(patterns.as_slice(), seg) {
            None => {
                proof {
                    assert(line@.subrange(index as int, n as int) == seg@);
                    assert(digits_read(line@, index as int) =~= Seq::empty());
                    assert(all =~= seen);
                    if index == 0 {
                        assert(seg@ =~= line@);
                        assert(has_pattern(line@));
                    }
                }
                done = true;
            },
            Some((p, e)) => {
                proof {
                    assert(line@.subrange(index as int, n as int) == seg@);
                    lemma_pattern_len(p as int);
                }
                let (next, d) = step(index, p, e);
                proof {
                    assert(digits_read(line@, index as int) == seq![d as int] + digits_read(line@, next as int));
                    assert(seen + digits_read(line@, index as int) =~= seen.push(d as int) + digits_read(line@, next as int));
                    seen = seen.push(d as int);
                }
                if index == 0 {
                    first = d;
                }
                last = d;
                index = next;
            },
        }
    }
    proof {
        lemma_digits_read(line@, 0);
        assert(seen.len() > 0);
        assert(0 <= all[0] <= 9 && 0 <= all.last() <= 9);
    }
    first * 10 + last
}

/// The sum over the lines of `input` of the calibration values made of each
/// line's first and last digit, a digit being written as a digit or as a
/// word from `zero` to `nine`.
pub fn part2(input: &str) -> (r: i32)
    requires
        forall|k: int| 0 <= k < lines(input.spec_bytes()).len() ==> has_pattern(#[trigger] lines(input.spec_bytes())[k]),
        lines(input.spec_bytes()).len() <= MAX_LINES,
    ensures
        r == sum_of_word_calibrations(lines(input.spec_bytes())),
{
    let patterns = digit_patterns();
    let ls = split_lines(input.as_bytes());
    let ghost all = lines(input.spec_bytes());
    proof {
        assert(views(ls@).len() == ls@.len());
    }
    let mut sum: i32 = 0;
    let mut i: usize = 0;
    while i < ls.len()
        invariant
            patterns@.len() == 20,
            forall|k: int| 0 <= k < 20 ==> (#[trigger] patterns@[k])@ == pattern(k),
            i <= ls@.len(),
            ls@.len() <= MAX_LINES,
            views(ls@) == all,
            forall|k: int| 0 <= k < all.len() ==> has_pattern(#[trigger] all[k]),
            sum == sum_of_word_calibrations(all.subrange(0, i as int)),
            0 <= sum <= 99 * i,
        decreases ls@.len() - i,
    {
        proof {
            assert(all[i as int] == ls@[i as int]@);
            assert(has_pattern(all[i as int]));
        }
        let v = word_line_value(&patterns, ls[i].as_slice());
        proof {
            assert(all.subrange(0, i + 1).drop_last() =~= all.subrange(0, i as int));
        }
        sum = sum + v;
        i = i + 1;
    }
    proof {
        assert(all.subrange(0, all.len() as int) =~= all);
    }
    sum
}

} // verus!
