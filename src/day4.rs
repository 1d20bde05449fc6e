//! Scratchcards: the numbers of each card that are among its winning
//! numbers, the points they score, and the copies they win.

use crate::text::is_i32_number;
use crate::text::lines;
use crate::text::parse_signed;
use crate::text::pieces;
use crate::text::signed_value;
use crate::text::split_lines;
use crate::text::split_on;
use crate::text::split_words;
use crate::text::views;
use crate::text::words;
use vstd::prelude::*;
use vstd::string::StringSliceAdditionalSpecFns;

verus! {

/// The separator after the card's name.
pub const COLON: u8 = 58;

/// The separator between the winning numbers and the card's own numbers.
pub const BAR: u8 = 124;

/// The line with each bar read as a colon.
pub open spec fn bars_as_colons(line: Seq<u8>) -> Seq<u8> {
    line.map_values(|c: u8| if c == BAR { COLON } else { c })
}

/// The parts of a card line between colons and bars.
pub open spec fn card_parts(line: Seq<u8>) -> Seq<Seq<u8>> {
    pieces(bars_as_colons(line), COLON)
}

/// The numbers of a space-separated list.
pub open spec fn numbers(s: Seq<u8>) -> Seq<int> {
    words(s).map_values(|w: Seq<u8>| signed_value(w))
}

/// A card line has a name, winning numbers and own numbers, all numbers
/// fitting in an `i32`.
pub open spec fn is_card(line: Seq<u8>) -> bool {
    &&& card_parts(line).len() == 3
    &&& forall|j: int|
        0 <= j < words(card_parts(line)[1]).len() ==> is_i32_number(#[trigger] words(card_parts(line)[1])[j])
    &&& forall|j: int|
        0 <= j < words(card_parts(line)[2]).len() ==> is_i32_number(#[trigger] words(card_parts(line)[2])[j])
}

/// How many of `mine` are among `winning`.
pub open spec fn matches(winning: Seq<int>, mine: Seq<int>) -> nat
    decreases mine.len(),
{
    if mine.len() == 0 {
        0
    } else {
        matches(winning, mine.drop_last()) + if winning.contains(mine.last()) {
            1nat
        } else {
            0nat
        }
    }
}

/// How many of a card's own numbers are among its winning numbers.
pub open spec fn card_matches(line: Seq<u8>) -> nat {
    matches(numbers(card_parts(line)[1]), numbers(card_parts(line)[2]))
}

/// Two to the power `n`.
pub open spec fn pow2(n: nat) -> nat
    decreases n,
{
    if n == 0 {
        1
    } else {
        2 * pow2((n - 1) as nat)
    }
}

/// The points of a card with `m` matches: none without a match, else one
/// doubled for every match after the first.
pub open spec fn points(m: nat) -> nat {
    if m == 0 {
        0
    } else {
        pow2((m - 1) as nat)
    }
}

/// The points of the cards, added up.
pub open spec fn total_points(ls: Seq<Seq<u8>>) -> int
    decreases ls.len(),
{
    if ls.len() == 0 {
        0
    } else {
        total_points(ls.drop_last()) + points(card_matches(ls.last()))
    }
}

/// The number of matches of each card.
pub open spec fn match_counts(ls: Seq<Seq<u8>>) -> Seq<nat> {
    Seq::new(ls.len(), |k: int| card_matches(ls[k]))
}

/// The copies held of each card once the first `i` cards have each won one
/// more copy of the next cards for each of their matches and each copy held.
pub open spec fn copies(ms: Seq<nat>, i: int) -> Seq<int>
    decreases i,
{
    if i <= 0 {
        Seq::new(ms.len(), |n: int| 1int)
    } else {
        let c = copies(ms, i - 1);
        Seq::new(
            ms.len(),
            |n: int|
                if i - 1 < n <= i - 1 + ms[i - 1] {
                    c[n] + c[i - 1]
                } else {
                    c[n]
                },
        )
    }
}

/// The sum of the first `n` entries.
pub open spec fn sum_first(c: Seq<int>, n: int) -> int
    decreases n,
{
    if n <= 0 {
        0
    } else {
        sum_first(c, n - 1) + c[n - 1]
    }
}

/// The number of cards held in the end.
pub open spec fn total_cards(ls: Seq<Seq<u8>>) -> int {
    let ms = match_counts(ls);
    sum_first(copies(ms, ms.len() as int), ms.len() as int)
}

/// Every line is a card line.
pub open spec fn all_cards(ls: Seq<Seq<u8>>) -> bool {
    forall|k: int| 0 <= k < ls.len() ==> is_card(#[trigger] ls[k])
}

/// The points of every card are below `2^31` and their sum fits in an `i32`.
pub open spec fn points_fit(ls: Seq<Seq<u8>>) -> bool {
    &&& forall|k: int| 0 <= k < ls.len() ==> card_matches(#[trigger] ls[k]) <= 31
    &&& forall|k: int| 0 <= k <= ls.len() ==> #[trigger] total_points(ls.subrange(0, k)) <= i32::MAX
}

/// No card wins copies of cards past the last, and every count of copies
/// and their sum fit in an `i32`.
pub open spec fn copies_fit(ls: Seq<Seq<u8>>) -> bool {
    let ms = match_counts(ls);
    &&& forall|k: int| 0 <= k < ms.len() ==> k + #[trigger] ms[k] < ms.len()
    &&& forall|i: int, n: int| 0 <= i <= ms.len() && 0 <= n < ms.len() ==> #[trigger] copies(ms, i)[n] <= i32::MAX
    &&& forall|n: int| 0 <= n <= ms.len() ==> #[trigger] sum_first(copies(ms, ms.len() as int), n) <= i32::MAX
}

/// How many of `my_numbers` are among `winning_numbers`.
fn count_winning_parts(winning_numbers: &[i32], my_numbers: &[i32]) -> (r: usize)
    ensures
        r == matches(winning_numbers@.map_values(|v: i32| v as int), my_numbers@.map_values(|v: i32| v as int)),
{
    let ghost w = winning_numbers@.map_values(|v: i32| v as int);
    let ghost m = my_numbers@.map_values(|v: i32| v as int);
    let mut count: usize = 0;
    let mut i: usize = 0;
    while i < my_numbers.len()
        invariant
            i <= my_numbers@.len(),
            w == winning_numbers@.map_values(|v: i32| v as int),
            m == my_numbers@.map_values(|v: i32| v as int),
            count <= i,
            count == matches(w, m.subrange(0, i as int)),
        decreases my_numbers@.len() - i,
    {
        let mut found = false;
        let mut j: usize = 0;
        while j < winning_numbers.len()
            invariant
                j <= winning_numbers@.len(),
                i < my_numbers@.len(),
                w == winning_numbers@.map_values(|v: i32| v as int),
                m == my_numbers@.map_values(|v: i32| v as int),
                found == exists|k: int| 0 <= k < j && w[k] == m[i as int],
            decreases winning_numbers@.len() - j,
        {
            proof {
                assert(w[j as int] == winning_numbers@[j as int] as int);
                assert(m[i as int] == my_numbers@[i as int] as int);
            }
            if winning_numbers[j] == my_numbers[i] {
                found = true;
            }
            j = j + 1;
        }
        proof {
            assert(m.subrange(0, i + 1).drop_last() =~= m.subrange(0, i as int));
            assert(m.subrange(0, i + 1).last() == m[i as int]);
            if found {
                let k = choose|k: int| 0 <= k < j && w[k] == m[i as int];
                assert(w[k] == m[i as int]);
            } else {
                assert(!w.contains(m[i as int]));
            }
        }
        if found {
            count = count + 1;
        }
        i = i + 1;
    }
    proof {
        assert(m.subrange(0, m.len() as int) =~= m);
    }
    count
}

/// The numbers of a space-separated list.
fn parse_nums(s: &[u8]) -> (r: Vec<i32>)
    requires
        forall|j: int| 0 <= j < words(s@).len() ==> is_i32_number(#[trigger] words(s@)[j]),
    ensures
        r@.map_values(|v: i32| v as int) == numbers(s@),
{
    let ws = split_words(s);
    let ghost all = words(s@);
    proof {
        assert(views(ws@).len() == ws@.len());
    }
    let mut out: Vec<i32> = Vec::new();
    let mut i: usize = 0;
    while i < ws.len()
        invariant
            i <= ws@.len(),
            views(ws@) == all,
            all == words(s@),
            forall|j: int| 0 <= j < all.len() ==> is_i32_number(#[trigger] all[j]),
            out@.len() == i,
            out@.map_values(|v: i32| v as int) == numbers(s@).subrange(0, i as int),
        decreases ws@.len() - i,
    {
        proof {
            assert(all[i as int] == ws@[i as int]@);
            assert(is_i32_number(all[i as int]));
        }
        let v = parse_signed(ws[i].as_slice());
        out.push(v as i32);
        proof {
            assert(numbers(s@)[i as int] == signed_value(all[i as int]));
            assert(out@.map_values(|v: i32| v as int) =~= numbers(s@).subrange(0, i + 1));
        }
        i = i + 1;
    }
    proof {
        assert(out@.map_values(|v: i32| v as int) =~= numbers(s@));
    }
    out
}

/// The number of matches of a card line.
fn matches_of_line(line: &[u8]) -> (r: usize)
    requires
        is_card(line@),
    ensures
        r == card_matches(line@),
{
    let mut normalized: Vec<u8> = Vec::new();
    let mut i: usize = 0;
    while i < line.len()
        invariant
            i <= line@.len(),
            normalized@ == bars_as_colons(line@).subrange(0, i as int),
        decreases line@.len() - i,
    {
        let c = line[i];
        normalized.push(if c == BAR { COLON } else { c });
        proof {
            assert(normalized@ =~= bars_as_colons(line@).subrange(0, i + 1));
        }
        i = i + 1;
    }
    proof {
        assert(normalized@ =~= bars_as_colons(line@));
    }
    let parts = split_on(normalized.as_slice(), COLON);
    proof {
        assert(views(parts@).len() == parts@.len());
        assert(parts@[1]@ == card_parts(line@)[1]);
        assert(parts@[2]@ == card_parts(line@)[2]);
    }
    let winning = parse_nums(parts[1].as_slice());
    let mine = parse_nums(parts[2].as_slice());
    count_winning_parts(winning.as_slice(), mine.as_slice())
}

/// The match counts of every line.
fn line_matches(ls: &Vec<Vec<u8>>) -> (r: Vec<usize>)
    requires
        all_cards(views(ls@)),
    ensures
        r@.map_values(|v: usize| v as nat) == match_counts(views(ls@)),
{
    let ghost all = views(ls@);
    let mut out: Vec<usize> = Vec::new();
    let mut i: usize = 0;
    while i < ls.len()
        invariant
            i <= ls@.len(),
            all == views(ls@),
            all_cards(all),
            out@.len() == i,
            out@.map_values(|v: usize| v as nat) == match_counts(all).subrange(0, i as int),
        decreases ls@.len() - i,
    {
        proof {
            assert(all[i as int] == ls@[i as int]@);
            assert(is_card(all[i as int]));
        }
        let m = matches_of_line(ls[i].as_slice());
        out.push(m);
        proof {
            assert(out@.map_values(|v: usize| v as nat) =~= match_counts(all).subrange(0, i + 1));
        }
        i = i + 1;
    }
    proof {
        assert(out@.map_values(|v: usize| v as nat) =~= match_counts(all));
    }
    out
}

/// The total points of the cards of `input`, one per line.
pub fn part1(input: &str) -> (r: i32)
    requires
        all_cards(lines(input.spec_bytes())),
        points_fit(lines(input.spec_bytes())),
    ensures
        r == total_points(lines(input.spec_bytes())),
{
    let ls = split_lines(input.as_bytes());
    let ghost all = lines(input.spec_bytes());
    let ms = line_matches(&ls);
    proof {
        assert(views(ls@).len() == ls@.len());
        assert(ms@.map_values(|v: usize| v as nat).len() == ms@.len());
    }
    let mut sum: i32 = 0;
    let mut i: usize = 0;
    while i < ms.len()
        invariant
            i <= ms@.len(),
            ms@.len() == all.len(),
            ms@.map_values(|v: usize| v as nat) == match_counts(all),
            points_fit(all),
            sum == total_points(all.subrange(0, i as int)),
        decreases ms@.len() - i,
    {
        let m = ms[i];
        proof {
            assert(match_counts(all)[i as int] == m);
            assert(m <= 31);

            assert(all.subrange(0, i + 1).drop_last() =~= all.subrange(0, i as int));
            assert(total_points(all.subrange(0, i + 1)) <= i32::MAX);
            assert(total_points(all.subrange(0, i + 1)) == sum + points(m as nat));
        }
        if m > 0 {
            sum = sum + power_of_two(m - 1);
        }
        i = i + 1;
    }
    proof {
        assert(all.subrange(0, all.len() as int) =~= all);
    }
    sum
}

/// The number of cards held in the end, when every card of `input`, one
/// per line, wins one copy of each of the next cards for each of its matches
/// and each copy of it that is held.
pub fn part2(input: &str) -> (r: i32)
    requires
        all_cards(lines(input.spec_bytes())),
        copies_fit(lines(input.spec_bytes())),
    ensures
        r == total_cards(lines(input.spec_bytes())),
{
    let ls = split_lines(input.as_bytes());
    let ghost all = lines(input.spec_bytes());
    let ms = line_matches(&ls);
    let ghost mc = match_counts(all);
    proof {
        assert(views(ls@).len() == ls@.len());
        assert(ms@.map_values(|v: usize| v as nat).len() == ms@.len());
    }
    let n = ms.len();
    let mut counts: Vec<i32> = Vec::new();
    let mut k: usize = 0;
    while k < n
        invariant
            k <= n,
            n == mc.len(),
            counts@.len() == k,
            forall|t: int| 0 <= t < k ==> counts@[t] == 1,
        decreases n - k,
    {
        counts.push(1);
        k = k + 1;
    }
    proof {
        assert(counts@.map_values(|v: i32| v as int) =~= copies(mc, 0));
    }
    let mut index: usize = 0;
    while index < n
        invariant
            index <= n,
            n == mc.len() == ms@.len(),
            mc == match_counts(all),
            ms@.map_values(|v: usize| v as nat) == mc,
            copies_fit(all),
            counts@.len() == n,
            counts@.map_values(|v: i32| v as int) == copies(mc, index as int),
        decreases n - index,
    {
        let matching = ms[index];
        let ghost c = copies(mc, index as int);
        proof {
            assert(mc[index as int] == matching);
            assert(index + mc[index as int] < mc.len());
        }
        let mut k: usize = index + 1;
        while k < index + matching + 1
            invariant
                index < n,
                n == mc.len(),
                mc == match_counts(all),
                copies_fit(all),
                index + matching < n,
                matching == mc[index as int],
                c == copies(mc, index as int),
                index + 1 <= k <= index + matching + 1,
                counts@.len() == n,
                forall|t: int|
                    0 <= t < n ==> #[trigger] counts@[t] as int == if index < t < k {
                        c[t] + c[index as int]
                    } else {
                        c[t]
                    },
            decreases index + matching + 1 - k,
        {
            proof {
                assert(copies(mc, index + 1)[k as int] == c[k as int] + c[index as int]);
                assert(copies(mc, index + 1)[k as int] <= i32::MAX);
                assert(copies(mc, index + 1)[k as int] >= i32::MIN) by {
                    lemma_copies_positive(mc, index + 1);
                }
            }
            let add = counts[index];
            let cur = counts[k];
            counts.set(k, cur + add);
            k = k + 1;
        }
        proof {
            assert(counts@.map_values(|v: i32| v as int) =~= copies(mc, index + 1));
        }
        index = index + 1;
    }
    let ghost fin = copies(mc, n as int);
    let mut sum: i32 = 0;
    let mut t: usize = 0;
    while t < n
        invariant
            t <= n,
            n == mc.len(),
            mc == match_counts(all),
            copies_fit(all),
            counts@.len() == n,
            counts@.map_values(|v: i32| v as int) == fin,
            fin == copies(mc, n as int),
            sum == sum_first(fin, t as int),
        decreases n - t,
    {
        proof {
            assert(fin[t as int] == counts@[t as int]);
            assert(sum_first(fin, t + 1) <= i32::MAX);
            lemma_copies_positive(mc, n as int);
            lemma_sum_first_positive(fin, t + 1);
        }
        sum = sum + counts[t];
        t = t + 1;
    }
    sum
}

/// Every card is held at least once.
proof fn lemma_copies_positive(ms: Seq<nat>, i: int)
    ensures
        forall|n: int| 0 <= n < ms.len() ==> #[trigger] copies(ms, i)[n] >= 1,
    decreases i,
{
    if i > 0 {
        lemma_copies_positive(ms, i - 1);
        let c = copies(ms, i - 1);
        assert forall|n: int| 0 <= n < ms.len() implies #[trigger] copies(ms, i)[n] >= 1 by {
            assert(c[n] >= 1);
            if i - 1 < n <= i - 1 + ms[i - 1] {
                assert(c[i - 1] >= 1);
            }
        }
    }
}

/// A sum of positive entries is positive.
proof fn lemma_sum_first_positive(c: Seq<int>, n: int)
    requires
        n <= c.len(),
        forall|k: int| 0 <= k < c.len() ==> #[trigger] c[k] >= 1,
    ensures
        sum_first(c, n) >= 0,
    decreases n,
{
    if n > 0 {
        lemma_sum_first_positive(c, n - 1);
    }
}

/// Two to the power `n`, for `n` up to 30.
fn power_of_two(n: usize) -> (r: i32)
    requires
        n <= 30,
    ensures
        r == pow2(n as nat),
{
    let mut p: i32 = 1;
    let mut k: usize = 0;
    while k < n
        invariant
            k <= n <= 30,
            p == pow2(k as nat),
        decreases n - k,
    {
        proof {
            lemma_pow2_bound((k + 1) as nat);
            assert(pow2((k + 1) as nat) == 2 * pow2(k as nat));
        }
        p = p * 2;
        k = k + 1;
    }
    p
}

/// Powers of two grow with the exponent, up to `2^30 = 0x4000_0000`.
proof fn lemma_pow2_bound(n: nat)
    requires
        n <= 30,
    ensures
        pow2(n) <= 0x4000_0000,
    decreases 30 - n,
{
    if n < 30 {
        lemma_pow2_bound(n + 1);
        assert(pow2(n + 1) == 2 * pow2(n));
    } else {
        reveal_with_fuel(pow2, 31);
    }
}

} // verus!
