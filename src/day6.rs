//! Boat races: how many ways of holding the button beat the record.

use crate::text::all_digits;
use crate::text::decimal;
use crate::text::is_signed_number;
use crate::text::lines;
use crate::text::parse_signed;
use crate::text::signed_value;
use crate::text::split_lines;
use crate::text::split_words;
use crate::text::views;
use crate::text::words;
use crate::text::MoreItertools;
use vstd::prelude::*;
use vstd::string::StringSliceAdditionalSpecFns;

verus! {

/// The largest race time for which distances are proved to fit in an `i64`.
pub const MAX_TIME: i64 = 0xFFFF_FFFF;

/// The distance reached in a race of `time` when holding the button for
/// `hold`.
pub open spec fn distance(time: int, hold: int) -> int {
    hold * (time - hold)
}

/// How many holding times `h` with `0 <= h < n` beat `record`.
pub open spec fn wins_below(time: int, record: int, n: int) -> nat
    decreases n,
{
    if n <= 0 {
        0
    } else {
        wins_below(time, record, n - 1) + if distance(time, n - 1) > record {
            1nat
        } else {
            0nat
        }
    }
}

/// How many holding times from `0` through `time` beat `record`.
pub open spec fn wins(time: int, record: int) -> nat {
    wins_below(time, record, time + 1)
}

/// The values of the words after the first one.
pub open spec fn values_after_label(line: Seq<u8>) -> Seq<int> {
    if words(line).len() == 0 {
        Seq::empty()
    } else {
        words(line).skip(1).map_values(|w: Seq<u8>| signed_value(w))
    }
}

/// The product over the races of the number of ways to win, the races being
/// the first `n` pairs of a time and a record.
pub open spec fn product_of_wins(times: Seq<int>, records: Seq<int>, n: int) -> int
    decreases n,
{
    if n <= 0 {
        1
    } else {
        product_of_wins(times, records, n - 1) * wins(times[n - 1], records[n - 1]) as int
    }
}

/// The number of races: as many as there are both times and records.
pub open spec fn races(times: Seq<int>, records: Seq<int>) -> int {
    if times.len() < records.len() {
        times.len() as int
    } else {
        records.len() as int
    }
}

/// A two-line sheet of race times and records whose words after the label
/// are numbers, whose times are at most `MAX_TIME`, and whose products of
/// wins fit in an `i64`.
pub open spec fn sheet_fits(ls: Seq<Seq<u8>>) -> bool {
    &&& ls.len() >= 2
    &&& forall|k: int, j: int|
        0 <= k < 2 && 1 <= j < words(ls[k]).len() ==> is_signed_number(#[trigger] words(ls[k])[j])
    &&& forall|j: int|
        0 <= j < values_after_label(ls[0]).len() ==> #[trigger] values_after_label(ls[0])[j] <= MAX_TIME
    &&& forall|n: int|
        0 <= n <= races(values_after_label(ls[0]), values_after_label(ls[1])) ==> #[trigger] product_of_wins(
            values_after_label(ls[0]),
            values_after_label(ls[1]),
            n,
        ) <= i64::MAX
}

/// The distance reached in a race of `time` when holding the button for
/// `time_to_hold`.
fn race(time: i64, time_to_hold: i64) -> (r: i64)
    requires
        0 <= time_to_hold,
        -1 <= time - time_to_hold,
        time <= MAX_TIME + 1,
    ensures
        r == distance(time as int, time_to_hold as int),
{
    proof {
        lemma_distance_bound(time as int, time_to_hold as int);
    }
    time_to_hold * (time - time_to_hold)
}

/// Distances stay within an `i64` for the times allowed.
proof fn lemma_distance_bound(time: int, hold: int)
    requires
        0 <= hold,
        -1 <= time - hold,
        time <= MAX_TIME + 1,
    ensures
        -(MAX_TIME + 2) <= hold * (time - hold) <= 0x4000_0000_0000_0000,
{
    let a = hold;
    let b = time - hold;
    if b < 0 {
        assert(a * b == -a) by (nonlinear_arith)
            requires
                b == -1,
        ;
    } else {
        assert(a * b >= 0) by (nonlinear_arith)
            requires
                a >= 0,
                b >= 0,
        ;
        assert(4 * (a * b) <= (a + b) * (a + b)) by (nonlinear_arith)
            requires
                a >= 0,
                b >= 0,
        ;
        assert((a + b) * (a + b) <= (MAX_TIME + 1) * (MAX_TIME + 1)) by (nonlinear_arith)
            requires
                0 <= a + b <= MAX_TIME + 1,
        ;
    }
}

/// A count of wins is at most the number of holding times tried.
proof fn lemma_wins_below_bound(time: int, record: int, n: int)
    ensures
        wins_below(time, record, n) <= if n < 0 { 0 } else { n },
    decreases n,
{
    if n > 0 {
        lemma_wins_below_bound(time, record, n - 1);
    }
}

/// The number of holding times from `0` through `time` that beat `record`.
fn count_wins(time: i64, record: i64) -> (r: i64)
    requires
        time <= MAX_TIME,
    ensures
        r == wins(time as int, record as int),
{
    if time < 0 {
        return 0;
    }
    let mut count: i64 = 0;
    let mut hold: i64 = 0;
    while hold <= time
        invariant
            0 <= time <= MAX_TIME,
            0 <= hold <= time + 1,
            count == wins_below(time as int, record as int, hold as int),
            count <= hold,
        decreases time + 1 - hold,
    {
        if race(time, hold) > record {
            count = count + 1;
        }
        hold = hold + 1;
    }
    count
}

/// The numbers after the label of a line.
fn read_values(line: &[u8]) -> (r: Vec<i64>)
    requires
        forall|j: int| 1 <= j < words(line@).len() ==> is_signed_number(#[trigger] words(line@)[j]),
    ensures
        r@.map_values(|v: i64| v as int) == values_after_label(line@),
{
    let ws = split_words(line);
    let ghost all = words(line@);
    proof {
        assert(views(ws@).len() == ws@.len());
    }
    let mut out: Vec<i64> = Vec::new();
    let mut i: usize = 1;
    if ws.len() == 0 {
        proof {
            assert(out@.map_values(|v: i64| v as int) =~= values_after_label(line@));
        }
        return out;
    }
    while i < ws.len()
        invariant
            1 <= i <= ws@.len(),
            views(ws@) == all,
            all == words(line@),
            forall|j: int| 1 <= j < all.len() ==> is_signed_number(#[trigger] all[j]),
            out@.len() == i - 1,
            out@.map_values(|v: i64| v as int) == values_after_label(line@).subrange(0, i - 1),
        decreases ws@.len() - i,
    {
        proof {
            assert(all[i as int] == ws@[i as int]@);
        }
        let v = parse_signed(ws[i].as_slice());
        out.push(v);
        proof {
            assert(values_after_label(line@)[i - 1] == signed_value(all[i as int]));
            assert(out@.map_values(|v: i64| v as int) =~= values_after_label(line@).subrange(0, i as int));
        }
        i = i + 1;
    }
    proof {
        assert(out@.map_values(|v: i64| v as int) =~= values_after_label(line@));
    }
    out
}

/// The product over the races of `input` of the number of ways to beat the
/// record; the first line holds the times, the second the records.
pub fn part1(input: &str) -> (r: i64)
    requires
        sheet_fits(lines(input.spec_bytes())),
    ensures
        r == product_of_wins(
            values_after_label(lines(input.spec_bytes())[0]),
            values_after_label(lines(input.spec_bytes())[1]),
            races(
                values_after_label(lines(input.spec_bytes())[0]),
                values_after_label(lines(input.spec_bytes())[1]),
            ),
        ),
{
    let ls = split_lines(input.as_bytes());
    let ghost all = lines(input.spec_bytes());
    proof {
        assert(views(ls@).len() == ls@.len());
        assert(all[0] == ls@[0]@);
        assert(all[1] == ls@[1]@);
    }
    let times = read_values(ls[0].as_slice());
    let records = read_values(ls[1].as_slice());
    let ghost ts = values_after_label(all[0]);
    let ghost rs = values_after_label(all[1]);
    proof {
        assert(times@.map_values(|v: i64| v as int).len() == times@.len());
        assert(records@.map_values(|v: i64| v as int).len() == records@.len());
    }
    let n = if times.len() < records.len() { times.len() } else { records.len() };
    let mut product: i64 = 1;
    let mut i: usize = 0;
    while i < n
        invariant
            i <= n,
            n == races(ts, rs),
            n <= times@.len(),
            n <= records@.len(),
            times@.map_values(|v: i64| v as int) == ts,
            records@.map_values(|v: i64| v as int) == rs,
            sheet_fits(all),
            ts == values_after_label(all[0]),
            rs == values_after_label(all[1]),
            product == product_of_wins(ts, rs, i as int),
        decreases n - i,
    {
        proof {
            assert(ts[i as int] == times@[i as int]);
            assert(rs[i as int] == records@[i as int]);
            assert(ts[i as int] <= MAX_TIME);
            assert(product_of_wins(ts, rs, i + 1) <= i64::MAX);
            lemma_wins_below_bound(ts[i as int], rs[i as int], ts[i as int] + 1);
            lemma_product_nonneg(ts, rs, i + 1);
        }
        let w = count_wins(times[i], records[i]);
        product = product * w;
        i = i + 1;
    }
    product
}

/// `b` is ASCII white space.
pub open spec fn is_blank(b: u8) -> bool {
    b == 32 || b == 9 || b == 10 || b == 12 || b == 13
}

/// The bytes of `s` that are not white space.
pub open spec fn without_blanks(s: Seq<u8>) -> Seq<u8>
    decreases s.len(),
{
    if s.len() == 0 {
        Seq::empty()
    } else if is_blank(s.last()) {
        without_blanks(s.drop_last())
    } else {
        without_blanks(s.drop_last()).push(s.last())
    }
}

/// The bytes of `line` after its first `k`.
pub open spec fn after(line: Seq<u8>, k: int) -> Seq<u8> {
    if line.len() <= k {
        Seq::empty()
    } else {
        line.subrange(k, line.len() as int)
    }
}

/// The number written across a line after its label of `k` bytes, white
/// space between its digits left out.
pub open spec fn kerned_number(line: Seq<u8>, k: int) -> int {
    decimal(without_blanks(after(line, k)))
}

/// The digits after a label of `k` bytes, white space left out.
fn kerned_digits(line: &[u8], k: usize) -> (r: Vec<u8>)
    ensures
        r@ == without_blanks(after(line@, k as int)),
{
    let mut out: Vec<u8> = Vec::new();
    if line.len() <= k {
        return out;
    }
    let ghost rest = after(line@, k as int);
    let mut i: usize = k;
    while i < line.len()
        invariant
            k <= i <= line@.len(),
            line@.len() > k,
            rest == line@.subrange(k as int, line@.len() as int),
            out@ == without_blanks(rest.subrange(0, i - k)),
        decreases line@.len() - i,
    {
        proof {
            assert(rest.subrange(0, i - k + 1).drop_last() =~= rest.subrange(0, i - k));
            assert(rest.subrange(0, i - k + 1).last() == line@[i as int]);
        }
        let c = line[i];
        if !(c == 32 || c == 9 || c == 10 || c == 12 || c == 13) {
            out.push(c);
        }
        i = i + 1;
    }
    proof {
        assert(rest.subrange(0, rest.len() as int) =~= rest);
    }
    out
}

/// A count of wins that is not zero has a winning holding time below `n`.
proof fn lemma_some_win(time: int, record: int, n: int)
    requires
        wins_below(time, record, n) > 0,
    ensures
        exists|h: int| 0 <= h < n && distance(time, h) > record,
    decreases n,
{
    if n > 0 && distance(time, n - 1) <= record {
        lemma_some_win(time, record, n - 1);
    }
}

/// Holding for `h` or for `time - h` goes as far.
proof fn lemma_distance_symmetric(time: int, h: int)
    ensures
        distance(time, h) == distance(time, time - h),
{
    assert(h * (time - h) == (time - h) * (time - (time - h))) by (nonlinear_arith);
}

/// Up to half the time, holding longer goes further.
proof fn lemma_distance_grows(time: int, lo: int, hi: int)
    requires
        0 <= lo <= hi <= time / 2,
    ensures
        distance(time, lo) <= distance(time, hi),
    decreases hi - lo,
{
    if lo < hi {
        lemma_distance_grows(time, lo, hi - 1);
        let k = hi - 1;
        assert(distance(time, k + 1) - distance(time, k) == time - 2 * k - 1) by (nonlinear_arith);
    }
}

/// With `h0` the shortest winning holding time, the winning times are those
/// from `h0` through `time - h0`.
proof fn lemma_winning_times(time: int, record: int, h0: int, h: int)
    requires
        0 <= h0 <= time,
        distance(time, h0) > record,
        forall|k: int| 0 <= k < h0 ==> distance(time, k) <= record,
        0 <= h <= time,
    ensures
        h0 <= time / 2,
        distance(time, h) > record <==> h0 <= h <= time - h0,
{
    lemma_distance_symmetric(time, h0);
    lemma_distance_symmetric(time, h);
    if h0 > time / 2 {
        assert(distance(time, time - h0) <= record);
    }
    if h0 <= h <= time - h0 {
        if h <= time / 2 {
            lemma_distance_grows(time, h0, h);
        } else {
            lemma_distance_grows(time, h0, time - h);
        }
    } else if h > time - h0 {
        assert(distance(time, time - h) <= record);
    }
}

/// The count of winning times below `n`, given the shortest one `h0`.
proof fn lemma_wins_shape(time: int, record: int, h0: int, n: int)
    requires
        0 <= h0 <= time,
        distance(time, h0) > record,
        forall|k: int| 0 <= k < h0 ==> distance(time, k) <= record,
        0 <= n <= time + 1,
    ensures
        wins_below(time, record, n) == if n <= h0 {
            0
        } else if n <= time - h0 + 1 {
            n - h0
        } else {
            time - 2 * h0 + 1
        },
    decreases n,
{
    if n > 0 {
        lemma_wins_shape(time, record, h0, n - 1);
        lemma_winning_times(time, record, h0, n - 1);
    }
}

/// The number of ways to beat the record of the single race of `input`,
/// whose first line holds the time and second line the record, each written
/// with white space between its digits.
pub fn part2(input: &str) -> (r: i64)
    requires
        lines(input.spec_bytes()).len() >= 2,
        all_digits(without_blanks(after(lines(input.spec_bytes())[0], 5))),
        all_digits(without_blanks(after(lines(input.spec_bytes())[1], 9))),
        kerned_number(lines(input.spec_bytes())[0], 5) <= MAX_TIME,
        kerned_number(lines(input.spec_bytes())[1], 9) <= i64::MAX,
        wins(
            kerned_number(lines(input.spec_bytes())[0], 5),
            kerned_number(lines(input.spec_bytes())[1], 9),
        ) > 0,
    ensures
        r == wins(
            kerned_number(lines(input.spec_bytes())[0], 5),
            kerned_number(lines(input.spec_bytes())[1], 9),
        ),
{
    let ls = split_lines(input.as_bytes());
    let ghost all = lines(input.spec_bytes());
    proof {
        assert(views(ls@).len() == ls@.len());
        assert(all[0] == ls@[0]@);
        assert(all[1] == ls@[1]@);
    }
    let time_digits = kerned_digits(ls[0].as_slice(), 5);
    let record_digits = kerned_digits(ls[1].as_slice(), 9);
    let time = time_digits.as_slice().parse_int();
    let record = record_digits.as_slice().parse_int();
    let ghost t = time as int;
    let ghost rec = record as int;
    proof {
        crate::text::lemma_decimal_prefix(time_digits@, 0, time_digits@.len() as int);
        assert(time_digits@.subrange(0, time_digits@.len() as int) =~= time_digits@);
        lemma_some_win(t, rec, t + 1);
    }
    let mut hold: i64 = 0;
    while race(time, hold) <= record
        invariant
            0 <= time <= MAX_TIME,
            t == time,
            rec == record,
            0 <= hold <= time,
            forall|k: int| 0 <= k < hold ==> distance(t, k) <= rec,
            exists|h: int| hold <= h <= t && distance(t, h) > rec,
        decreases time - hold,
    {
        proof {
            let w = choose|h: int| hold <= h <= t && distance(t, h) > rec;
            assert(w != hold);
            assert(hold + 1 <= w);
        }
        hold = hold + 1;
    }
    proof {
        lemma_wins_shape(t, rec, hold as int, t + 1);
        lemma_winning_times(t, rec, hold as int, 0);
    }
    let half = time / 2;
    let at_half = race(time, half);
    let after_half = race(time, half + 1);
    proof {
        assert(distance(t, half + 1) - distance(t, half as int) == t - 2 * half - 1) by (nonlinear_arith);
    }
    if at_half > after_half {
        ((half - hold) + 1) * 2 - 1
    } else {
        ((half - hold) + 1) * 2
    }
}

/// Products of counts are never negative.
proof fn lemma_product_nonneg(times: Seq<int>, records: Seq<int>, n: int)
    ensures
        product_of_wins(times, records, n) >= 0,
    decreases n,
{
    if n > 0 {
        lemma_product_nonneg(times, records, n - 1);
        let p = product_of_wins(times, records, n - 1);
        let w = wins(times[n - 1], records[n - 1]) as int;
        assert(p * w >= 0) by (nonlinear_arith)
            requires
                p >= 0,
                w >= 0,
        ;
    }
}

} // verus!
