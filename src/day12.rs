//! Rows of springs, each broken, operational or of unknown condition.

use crate::text::first_index_of;
use crate::text::is_signed_number;
use crate::text::lines;
use crate::text::parse_signed;
use crate::text::pieces;
use crate::text::signed_value;
use crate::text::split_lines;
use crate::text::split_on;
use crate::text::split_once_byte;
use crate::text::views;
use crate::text::SPACE;
use vstd::prelude::*;
use vstd::slice::slice_subrange;
use vstd::string::StringSliceAdditionalSpecFns;

verus! {

/// The condition of a spring.
#[derive(Clone, Copy, Debug, PartialEq, Eq, Structural)]
pub enum Spring {
    Broken,
    Unknown,
    Operational,
}

impl Spring {
    /// Whether the spring may be broken: it is, or its condition is unknown.
    pub fn maybe_broken(self) -> (r: bool)
        ensures
            r == (self == Spring::Unknown || self == Spring::Broken),
    {
        match self {
            Spring::Unknown | Spring::Broken => true,
            Spring::Operational => false,
        }
    }
}

/// The spring that a byte stands for: `#` broken, `.` operational, any
/// other byte unknown.
pub open spec fn spring_of(b: u8) -> Spring {
    if b == 35 {
        Spring::Broken
    } else if b == 46 {
        Spring::Operational
    } else {
        Spring::Unknown
    }
}

/// The bytes that stand for a spring: `#`, `.` and `?`.
pub open spec fn is_spring(b: u8) -> bool {
    b == 35 || b == 46 || b == 63
}

/// A run of `g` damaged springs can start at `start`: none of its springs is
/// operational and neither neighbour is broken.
pub open spec fn window_fits(s: Seq<Spring>, start: int, g: int) -> bool {
    &&& forall|k: int| start <= k < start + g ==> s[k] != Spring::Operational
    &&& !(start > 0 && s[start - 1] == Spring::Broken)
    &&& !(start + g < s.len() && s[start + g] == Spring::Broken)
}

/// No spring from offset `i` on is broken.
pub open spec fn no_broken_from(s: Seq<Spring>, i: int) -> bool {
    forall|k: int| i <= k < s.len() ==> s[k] != Spring::Broken
}

/// The number of ways to place the runs of damaged springs `gs`, in order
/// and apart, on the springs `s`, every broken spring in a run.
pub open spec fn arrangements_of(s: Seq<Spring>, gs: Seq<int>) -> int
    decreases s.len(), s.len() + 2,
{
    if gs.len() == 0 || gs[0] < 1 {
        0
    } else {
        arrangements_from(s, gs, 0)
    }
}

/// The arrangements whose first run starts at `start` or later, no broken
/// spring being left before it.
pub open spec fn arrangements_from(s: Seq<Spring>, gs: Seq<int>, start: int) -> int
    decreases s.len(), s.len() + 1 - start,
{
    if gs.len() == 0 || gs[0] < 1 || start < 0 || start + gs[0] > s.len() {
        0
    } else {
        let g = gs[0];
        let here = if window_fits(s, start, g) {
            if gs.len() == 1 {
                if no_broken_from(s, start + g) {
                    1
                } else {
                    0
                }
            } else if start + g + 1 <= s.len() {
                arrangements_of(s.subrange(start + g + 1, s.len() as int), gs.subrange(1, gs.len() as int))
            } else {
                0
            }
        } else {
            0
        };
        here + if s[start] == Spring::Broken {
            0
        } else {
            arrangements_from(s, gs, start + 1)
        }
    }
}

/// Counts of arrangements are never negative.
proof fn lemma_arrangements_of_nonneg(s: Seq<Spring>, gs: Seq<int>)
    ensures
        arrangements_of(s, gs) >= 0,
    decreases s.len(), s.len() + 2,
{
    if !(gs.len() == 0 || gs[0] < 1) {
        lemma_arrangements_from_nonneg(s, gs, 0);
    }
}

/// Counts of arrangements from a start are never negative.
proof fn lemma_arrangements_from_nonneg(s: Seq<Spring>, gs: Seq<int>, start: int)
    ensures
        arrangements_from(s, gs, start) >= 0,
    decreases s.len(), s.len() + 1 - start,
{
    if !(gs.len() == 0 || gs[0] < 1 || start < 0 || start + gs[0] > s.len()) {
        let g = gs[0];
        if window_fits(s, start, g) && gs.len() != 1 && start + g + 1 <= s.len() {
            lemma_arrangements_of_nonneg(s.subrange(start + g + 1, s.len() as int), gs.subrange(1, gs.len() as int));
        }
        if s[start] != Spring::Broken {
            lemma_arrangements_from_nonneg(s, gs, start + 1);
        }
    }
}

/// The values of a slice of machine integers.
pub open spec fn ints(v: Seq<i64>) -> Seq<int> {
    v.map_values(|x: i64| x as int)
}

/// The number of ways to place the runs of damaged springs `damaged` on
/// `springs`.
fn count_arrangements(springs: &[Spring], damaged: &[i64]) -> (r: i64)
    requires
        damaged@.len() >= 1,
        forall|k: int| 0 <= k < damaged@.len() ==> damaged@[k] >= 1,
        arrangements_of(springs@, ints(damaged@)) <= i64::MAX,
    ensures
        r == arrangements_of(springs@, ints(damaged@)),
    decreases springs@.len(),
{
    let ghost s = springs@;
    let ghost gs = ints(damaged@);
    let n = springs.len();
    if damaged[0] as u64 > n as u64 {
        proof {
            assert(gs[0] == damaged@[0]);
        }
        return 0;
    }
    let g = damaged[0] as usize;
    proof {
        lemma_arrangements_of_nonneg(s, gs);
        assert(gs[0] == g);
    }
    let mut total: i64 = 0;
    let mut start: usize = 0;
    let mut stop = false;
    while !stop && start <= n - g
        invariant
            s == springs@,
            gs == ints(damaged@),
            forall|k: int| 0 <= k < damaged@.len() ==> damaged@[k] >= 1,
            n == s.len(),
            1 <= g <= n,
            g == gs[0],
            gs.len() >= 1,
            arrangements_of(s, gs) <= i64::MAX,
            0 <= total,
            !stop ==> total + arrangements_from(s, gs, start as int) == arrangements_of(s, gs),
            stop ==> total == arrangements_of(s, gs),
        decreases n + 1 - start,
    {
        proof {
            lemma_arrangements_from_nonneg(s, gs, start + 1);
        }
        let mut fits = true;
        let mut k: usize = start;
        while k < start + g
            invariant
                s == springs@,
                n == s.len(),
                start + g <= n,
                start <= k <= start + g,
                fits == forall|t: int| start <= t < k ==> s[t] != Spring::Operational,
            decreases start + g - k,
        {
            if !springs[k].maybe_broken() {
                fits = false;
            }
            k = k + 1;
        }
        if start > 0 && springs[start - 1] == Spring::Broken {
            fits = false;
        }
        if start + g < n && springs[start + g] == Spring::Broken {
            fits = false;
        }
        let ghost here: int = if window_fits(s, start as int, g as int) {
            if gs.len() == 1 {
                if no_broken_from(s, start + g) { 1 } else { 0 }
            } else if start + g + 1 <= s.len() {
                arrangements_of(s.subrange(start + g + 1, s.len() as int), gs.subrange(1, gs.len() as int))
            } else {
                0
            }
        } else {
            0
        };
        proof {
            assert(fits == window_fits(s, start as int, g as int));
            lemma_arrangements_of_nonneg(s.subrange(start + g + 1, s.len() as int), gs.subrange(1, gs.len() as int));
            assert(total + here <= arrangements_of(s, gs));
        }
        if fits {
            if damaged.len() == 1 {
                let mut clean = true;
                let mut t: usize = start + g;
                while t < n
                    invariant
                        s == springs@,
                        n == s.len(),
                        start + g <= t <= n,
                        clean == forall|u: int| start + g <= u < t ==> s[u] != Spring::Broken,
                    decreases n - t,
                {
                    if springs[t] == Spring::Broken {
                        clean = false;
                    }
                    t = t + 1;
                }
                if clean {
                    total = total + 1;
                }
            } else if start + g < n {
                let post = slice_subrange(springs, start + g + 1, n);
                let rest = slice_subrange(damaged, 1, damaged.len());
                proof {
                    assert(ints(rest@) =~= gs.subrange(1, gs.len() as int));
                    assert forall|k: int| 0 <= k < rest@.len() implies rest@[k] >= 1 by {
                        assert(rest@[k] == damaged@[k + 1]);
                    }
                }
                let sub = count_arrangements(post, rest);
                total = total + sub;
            }
        }
        if springs[start] == Spring::Broken {
            stop = true;
        }
        start = start + 1;
    }
    total
}

/// The springs of a record line.
pub open spec fn record_springs(line: Seq<u8>) -> Seq<Spring> {
    line.subrange(0, first_index_of(line, SPACE)).map_values(|b: u8| spring_of(b))
}

/// The runs of damaged springs of a record line.
pub open spec fn record_groups(line: Seq<u8>) -> Seq<int> {
    pieces(line.subrange(first_index_of(line, SPACE) + 1, line.len() as int), 44).map_values(
        |w: Seq<u8>| signed_value(w),
    )
}

/// A record line: springs, a space, and comma-separated run lengths of at
/// least one.
pub open spec fn record_ok(line: Seq<u8>) -> bool {
    let k = first_index_of(line, SPACE);
    let ws = pieces(line.subrange(k + 1, line.len() as int), 44);
    &&& k >= 0
    &&& forall|i: int| 0 <= i < k ==> is_spring(line[i])
    &&& forall|i: int| 0 <= i < ws.len() ==> is_signed_number(#[trigger] ws[i]) && signed_value(ws[i]) >= 1
}

/// The sum over the record lines of their numbers of arrangements.
pub open spec fn total_arrangements(ls: Seq<Seq<u8>>) -> int
    decreases ls.len(),
{
    if ls.len() == 0 {
        0
    } else {
        total_arrangements(ls.drop_last()) + arrangements_of(record_springs(ls.last()), record_groups(ls.last()))
    }
}

/// The springs and runs of a record line.
fn read_record(line: &[u8]) -> (r: (Vec<Spring>, Vec<i64>))
    requires
        record_ok(line@),
    ensures
        r.0@ == record_springs(line@),
        ints(r.1@) == record_groups(line@),
        r.1@.len() >= 1,
        forall|k: int| 0 <= k < r.1@.len() ==> r.1@[k] >= 1,
{
    let (head, tail) = match split_once_byte(line, SPACE) {
        Some(parts) => parts,
        None => {
            let one: Vec<i64> = vec![1];
            return (Vec::new(), one);
        },
    };
    let mut springs: Vec<Spring> = Vec::new();
    let mut i: usize = 0;
    while i < head.len()
        invariant
            i <= head@.len(),
            head@ == line@.subrange(0, first_index_of(line@, SPACE)),
            springs@ == head@.subrange(0, i as int).map_values(|b: u8| spring_of(b)),
        decreases head@.len() - i,
    {
        let b = head[i];
        let sp = if b == 35 {
            Spring::Broken
        } else if b == 46 {
            Spring::Operational
        } else {
            Spring::Unknown
        };
        springs.push(sp);
        proof {
            assert(springs@ =~= head@.subrange(0, i + 1).map_values(|b: u8| spring_of(b)));
        }
        i = i + 1;
    }
    proof {
        assert(head@.subrange(0, head@.len() as int) =~= head@);
    }
    let ws = split_on(tail.as_slice(), 44);
    let ghost all = pieces(tail@, 44);
    proof {
        assert(views(ws@).len() == ws@.len());
        crate::text::lemma_pieces_nonempty(tail@, 44);
    }
    let mut groups: Vec<i64> = Vec::new();
    let mut j: usize = 0;
    while j < ws.len()
        invariant
            j <= ws@.len(),
            views(ws@) == all,
            all == pieces(tail@, 44),
            tail@ == line@.subrange(first_index_of(line@, SPACE) + 1, line@.len() as int),
            record_ok(line@),
            groups@.len() == j,
            forall|t: int| 0 <= t < j ==> groups@[t] >= 1,
            ints(groups@) == all.subrange(0, j as int).map_values(|w: Seq<u8>| signed_value(w)),
        decreases ws@.len() - j,
    {
        proof {
            assert(all[j as int] == ws@[j as int]@);
            assert(is_signed_number(all[j as int]) && signed_value(all[j as int]) >= 1);
        }
        let v = parse_signed(ws[j].as_slice());
        let ghost before = groups@;
        groups.push(v);
        proof {
            assert(groups@ == before.push(v));
            assert(ints(groups@)[j as int] == v as int);
            assert(all.subrange(0, j + 1).map_values(|w: Seq<u8>| signed_value(w))[j as int] == signed_value(all[j as int]));
            assert forall|t: int| 0 <= t < j implies ints(groups@)[t] == all.subrange(0, j + 1).map_values(
                |w: Seq<u8>| signed_value(w),
            )[t] by {
                assert(ints(groups@)[t] == ints(before)[t]);
                assert(ints(before)[t] == all.subrange(0, j as int).map_values(|w: Seq<u8>| signed_value(w))[t]);
            }
            assert(ints(groups@) =~= all.subrange(0, j + 1).map_values(|w: Seq<u8>| signed_value(w)));
        }
        j = j + 1;
    }
    proof {
        assert(all.subrange(0, all.len() as int) =~= all);
    }
    (springs, groups)
}

/// The sum over the record lines of `input` of the number of arrangements
/// of damaged springs that fit each record.
pub fn part1(input: &str) -> (r: i64)
    requires
        forall|k: int| 0 <= k < lines(input.spec_bytes()).len() ==> record_ok(#[trigger] lines(input.spec_bytes())[k]),
        total_arrangements(lines(input.spec_bytes())) <= i64::MAX,
    ensures
        r == total_arrangements(lines(input.spec_bytes())),
{
    let ls = split_lines(input.as_bytes());
    let ghost all = lines(input.spec_bytes());
    proof {
        assert(views(ls@).len() == ls@.len());
    }
    let mut arrangements: i64 = 0;
    let mut i: usize = 0;
    while i < ls.len()
        invariant
            i <= ls@.len(),
            views(ls@) == all,
            forall|k: int| 0 <= k < all.len() ==> record_ok(#[trigger] all[k]),
            total_arrangements(all) <= i64::MAX,
            arrangements == total_arrangements(all.subrange(0, i as int)),
        decreases ls@.len() - i,
    {
        proof {
            assert(all[i as int] == ls@[i as int]@);
            lemma_line_step(all, i as int);
        }
        let (springs, groups) = read_record(ls[i].as_slice());
        let v = count_arrangements(springs.as_slice(), groups.as_slice());
        arrangements = arrangements + v;
        i = i + 1;
    }
    proof {
        assert(all.subrange(0, all.len() as int) =~= all);
    }
    arrangements
}

/// Counting line `i` keeps the running total within the whole total.
proof fn lemma_line_step(ls: Seq<Seq<u8>>, i: int)
    requires
        0 <= i < ls.len(),
    ensures
        total_arrangements(ls.subrange(0, i + 1)) == total_arrangements(ls.subrange(0, i as int))
            + arrangements_of(record_springs(ls[i]), record_groups(ls[i])),
        0 <= total_arrangements(ls.subrange(0, i as int)),
        0 <= arrangements_of(record_springs(ls[i]), record_groups(ls[i])),
        total_arrangements(ls.subrange(0, i + 1)) <= total_arrangements(ls),
{
    assert(ls.subrange(0, i + 1).drop_last() =~= ls.subrange(0, i as int));
    lemma_total_grows(ls, i + 1, ls.len() as int);
    lemma_total_grows(ls, i, i);
    lemma_arrangements_of_nonneg(record_springs(ls[i]), record_groups(ls[i]));
    assert(ls.subrange(0, ls.len() as int) =~= ls);
}

/// Totals of arrangements only grow with the lines counted.
proof fn lemma_total_grows(ls: Seq<Seq<u8>>, i: int, j: int)
    requires
        0 <= i <= j <= ls.len(),
    ensures
        0 <= total_arrangements(ls.subrange(0, i)) <= total_arrangements(ls.subrange(0, j)),
    decreases j,
{
    if j > 0 {
        assert(ls.subrange(0, j).drop_last() =~= ls.subrange(0, j - 1));
        let l = ls[j - 1];
        lemma_arrangements_of_nonneg(record_springs(l), record_groups(l));
        if i < j {
            lemma_total_grows(ls, i, j - 1);
        } else {
            lemma_total_grows(ls, j - 1, j - 1);
        }
    }
}

} // verus!
