//! Extrapolating number sequences forwards and backwards through their
//! repeated differences.

use crate::text::is_signed_number;
use crate::text::lines;
use crate::text::parse_signed;
use crate::text::signed_value;
use crate::text::split_lines;
use crate::text::split_words;
use crate::text::views;
use crate::text::words;
use vstd::prelude::*;
use vstd::string::StringSliceAdditionalSpecFns;

verus! {

/// The values of a vector of machine integers.
pub open spec fn ints(v: Seq<i64>) -> Seq<int> {
    v.map_values(|x: i64| x as int)
}

/// `x` fits in an `i64`.
pub open spec fn in_i64(x: int) -> bool {
    i64::MIN <= x <= i64::MAX
}

/// The differences between neighbouring values.
pub open spec fn differences(nums: Seq<int>) -> Seq<int> {
    Seq::new(
        if nums.len() > 0 {
            (nums.len() - 1) as nat
        } else {
            0
        },
        |i: int| nums[i + 1] - nums[i],
    )
}

/// Every value is zero (so too when there is none).
pub open spec fn all_zero(nums: Seq<int>) -> bool {
    forall|i: int| 0 <= i < nums.len() ==> nums[i] == 0
}

/// The value that continues the sequence: zero for a sequence of zeros, else
/// its last value plus the value that continues its differences.
pub open spec fn next_value(nums: Seq<int>) -> int
    decreases nums.len(),
{
    if all_zero(nums) {
        0
    } else {
        nums.last() + next_value(differences(nums))
    }
}

/// The value that comes before the sequence: zero for a sequence of zeros,
/// else its first value minus the value that comes before its differences.
pub open spec fn prev_value(nums: Seq<int>) -> int
    decreases nums.len(),
{
    if all_zero(nums) {
        0
    } else {
        nums[0] - prev_value(differences(nums))
    }
}

/// Every difference, and every value continuing a sequence of differences,
/// fits in an `i64`.
pub open spec fn next_fits(nums: Seq<int>) -> bool
    decreases nums.len(),
{
    if all_zero(nums) {
        true
    } else {
        &&& forall|i: int| 0 <= i < differences(nums).len() ==> in_i64(#[trigger] differences(nums)[i])
        &&& next_fits(differences(nums))
        &&& in_i64(nums.last() + next_value(differences(nums)))
    }
}

/// Every difference, and every value coming before a sequence of
/// differences, fits in an `i64`.
pub open spec fn prev_fits(nums: Seq<int>) -> bool
    decreases nums.len(),
{
    if all_zero(nums) {
        true
    } else {
        &&& forall|i: int| 0 <= i < differences(nums).len() ==> in_i64(#[trigger] differences(nums)[i])
        &&& prev_fits(differences(nums))
        &&& in_i64(nums[0] - prev_value(differences(nums)))
    }
}

/// The numbers of a line.
pub open spec fn line_values(line: Seq<u8>) -> Seq<int> {
    words(line).map_values(|w: Seq<u8>| signed_value(w))
}

/// Every word of every line is a number.
pub open spec fn all_numbers(ls: Seq<Seq<u8>>) -> bool {
    forall|k: int, j: int|
        0 <= k < ls.len() && 0 <= j < words(ls[k]).len() ==> is_signed_number(
            #[trigger] words(ls[k])[j],
        )
}

/// The sum over the lines of the values that continue them.
pub open spec fn sum_next(ls: Seq<Seq<u8>>) -> int
    decreases ls.len(),
{
    if ls.len() == 0 {
        0
    } else {
        sum_next(ls.drop_last()) + next_value(line_values(ls.last()))
    }
}

/// The sum over the lines of the values that come before them.
pub open spec fn sum_prev(ls: Seq<Seq<u8>>) -> int
    decreases ls.len(),
{
    if ls.len() == 0 {
        0
    } else {
        sum_prev(ls.drop_last()) + prev_value(line_values(ls.last()))
    }
}

/// The numbers of the lines can be read, continued and summed in `i64`.
pub open spec fn forward_fits(ls: Seq<Seq<u8>>) -> bool {
    &&& all_numbers(ls)
    &&& forall|k: int| 0 <= k < ls.len() ==> next_fits(#[trigger] line_values(ls[k]))
    &&& forall|k: int| 0 <= k <= ls.len() ==> in_i64(#[trigger] sum_next(ls.subrange(0, k)))
}

/// The numbers of the lines can be read, continued backwards and summed in
/// `i64`.
pub open spec fn backward_fits(ls: Seq<Seq<u8>>) -> bool {
    &&& all_numbers(ls)
    &&& forall|k: int| 0 <= k < ls.len() ==> prev_fits(#[trigger] line_values(ls[k]))
    &&& forall|k: int| 0 <= k <= ls.len() ==> in_i64(#[trigger] sum_prev(ls.subrange(0, k)))
}

/// Whether every value is zero.
fn is_all_zero(nums: &[i64]) -> (r: bool)
    ensures
        r == all_zero(ints(nums@)),
{
    let mut i: usize = 0;
    while i < nums.len()
        invariant
            i <= nums@.len(),
            forall|k: int| 0 <= k < i ==> nums@[k] == 0,
        decreases nums@.len() - i,
    {
        if nums[i] != 0 {
            proof {
                assert(ints(nums@)[i as int] != 0);
            }
            return false;
        }
        i = i + 1;
    }
    true
}

/// The differences between neighbouring values.
fn differences_of(nums: &[i64]) -> (r: Vec<i64>)
    requires
        nums@.len() > 0,
        forall|i: int|
            0 <= i < differences(ints(nums@)).len() ==> in_i64(#[trigger] differences(ints(nums@))[i]),
    ensures
        ints(r@) == differences(ints(nums@)),
{
    let ghost d = differences(ints(nums@));
    let mut out: Vec<i64> = Vec::new();
    let mut k: usize = 0;
    while k < nums.len() - 1
        invariant
            nums@.len() > 0,
            k <= nums@.len() - 1,
            d == differences(ints(nums@)),
            forall|i: int| 0 <= i < d.len() ==> in_i64(#[trigger] d[i]),
            ints(out@) == d.subrange(0, k as int),
            out@.len() == k,
        decreases nums@.len() - k,
    {
        proof {
            assert(in_i64(d[k as int]));
        }
        let v = nums[k + 1] - nums[k];
        out.push(v);
        proof {
            assert(d[k as int] == nums@[k + 1] as int - nums@[k as int] as int);
            assert(ints(out@)[k as int] == v as int);
            assert(ints(out@) =~= d.subrange(0, k + 1));
        }
        k = k + 1;
    }
    proof {
        assert(ints(out@) =~= d);
    }
    out
}

/// The value that continues the sequence.
fn extrapolate_forward(nums: &[i64]) -> (r: i64)
    requires
        next_fits(ints(nums@)),
    ensures
        r == next_value(ints(nums@)),
    decreases nums@.len(),
{
    if is_all_zero(nums) {
        return 0;
    }
    let diffs = differences_of(nums);
    let next = extrapolate_forward(diffs.as_slice());
    proof {
        assert(ints(nums@).last() == nums@[nums@.len() - 1]);
    }
    nums[nums.len() - 1] + next
}

/// The value that comes before the sequence.
fn extrapolate_backward(nums: &[i64]) -> (r: i64)
    requires
        prev_fits(ints(nums@)),
    ensures
        r == prev_value(ints(nums@)),
    decreases nums@.len(),
{
    if is_all_zero(nums) {
        return 0;
    }
    let diffs = differences_of(nums);
    let prev = extrapolate_backward(diffs.as_slice());
    proof {
        assert(ints(nums@)[0] == nums@[0]);
    }
    nums[0] - prev
}

/// The numbers of a line.
fn read_values(line: &[u8]) -> (r: Vec<i64>)
    requires
        forall|j: int| 0 <= j < words(line@).len() ==> is_signed_number(#[trigger] words(line@)[j]),
    ensures
        ints(r@) == line_values(line@),
{
    let ws = split_words(line);
    let ghost all = words(line@);
    proof {
        assert(views(ws@).len() == ws@.len());
    }
    let mut out: Vec<i64> = Vec::new();
    let mut i: usize = 0;
    while i < ws.len()
        invariant
            i <= ws@.len(),
            views(ws@) == all,
            forall|j: int| 0 <= j < all.len() ==> is_signed_number(#[trigger] all[j]),
            ints(out@) == line_values(line@).subrange(0, i as int),
            out@.len() == i,
            all == words(line@),
        decreases ws@.len() - i,
    {
        proof {
            assert(all[i as int] == ws@[i as int]@);
        }
        let v = parse_signed(ws[i].as_slice());
        out.push(v);
        proof {
            assert(line_values(line@)[i as int] == signed_value(all[i as int]));
            assert(ints(out@)[i as int] == v as int);
            assert(ints(out@) =~= line_values(line@).subrange(0, i + 1));
        }
        i = i + 1;
    }
    proof {
        assert(ints(out@) =~= line_values(line@));
    }
    out
}

/// The sum over the lines of `input` of the value that continues each
/// line's numbers.
pub fn part1(input: &str) -> (r: i64)
    requires
        forward_fits(lines(input.spec_bytes())),
    ensures
        r == sum_next(lines(input.spec_bytes())),
{
    let ls = split_lines(input.as_bytes());
    let ghost all = lines(input.spec_bytes());
    proof {
        assert(views(ls@).len() == ls@.len());
    }
    let mut sum: i64 = 0;
    let mut i: usize = 0;
    while i < ls.len()
        invariant
            i <= ls@.len(),
            views(ls@) == all,
            forward_fits(all),
            sum == sum_next(all.subrange(0, i as int)),
        decreases ls@.len() - i,
    {
        proof {
            assert(all[i as int] == ls@[i as int]@);
            assert forall|j: int| 0 <= j < words(all[i as int]).len() implies is_signed_number(
                #[trigger] words(all[i as int])[j],
            ) by {
                assert(is_signed_number(words(all[i as int])[j]));
            }
        }
        let values = read_values(ls[i].as_slice());
        proof {
            assert(next_fits(line_values(all[i as int])));
        }
        let v = extrapolate_forward(values.as_slice());
        proof {
            assert(all.subrange(0, i + 1).drop_last() =~= all.subrange(0, i as int));
            assert(in_i64(sum_next(all.subrange(0, i + 1))));
        }
        sum = sum + v;
        i = i + 1;
    }
    proof {
        assert(all.subrange(0, all.len() as int) =~= all);
    }
    sum
}

/// The sum over the lines of `input` of the value that comes before each
/// line's numbers.
pub fn part2(input: &str) -> (r: i64)
    requires
        backward_fits(lines(input.spec_bytes())),
    ensures
        r == sum_prev(lines(input.spec_bytes())),
{
    let ls = split_lines(input.as_bytes());
    let ghost all = lines(input.spec_bytes());
    proof {
        assert(views(ls@).len() == ls@.len());
    }
    let mut sum: i64 = 0;
    let mut i: usize = 0;
    while i < ls.len()
        invariant
            i <= ls@.len(),
            views(ls@) == all,
            backward_fits(all),
            sum == sum_prev(all.subrange(0, i as int)),
        decreases ls@.len() - i,
    {
        proof {
            assert(all[i as int] == ls@[i as int]@);
            assert forall|j: int| 0 <= j < words(all[i as int]).len() implies is_signed_number(
                #[trigger] words(all[i as int])[j],
            ) by {
                assert(is_signed_number(words(all[i as int])[j]));
            }
        }
        let values = read_values(ls[i].as_slice());
        proof {
            assert(prev_fits(line_values(all[i as int])));
        }
        let v = extrapolate_backward(values.as_slice());
        proof {
            assert(all.subrange(0, i + 1).drop_last() =~= all.subrange(0, i as int));
            assert(in_i64(sum_prev(all.subrange(0, i + 1))));
        }
        sum = sum + v;
        i = i + 1;
    }
    proof {
        assert(all.subrange(0, all.len() as int) =~= all);
    }
    sum
}

} // verus!
