//! Camel cards: hands ranked by their kind and then card by card, with the
//! jack read as a joker in the second reading.

use crate::text::first_index_of;
use crate::text::is_signed_number;
use crate::text::lines;
use crate::text::parse_signed;
use crate::text::signed_value;
use crate::text::split_lines;
use crate::text::split_once_byte;
use crate::text::views;
use crate::text::SPACE;
use core::cmp::Ordering;
use vstd::prelude::*;
use vstd::string::StringSliceAdditionalSpecFns;

verus! {

/// The cards of a hand.
pub const CARDS_PER_HAND: usize = 5;

/// The number of card values.
pub const CARD_VALUES: usize = 15;

/// The jack, read as a joker in the second reading.
pub const JACK: u8 = 74;

/// The kind of a hand, weakest first.
#[derive(Clone, Copy, Debug, PartialEq, Eq, Structural)]
pub enum Kind {
    HighCard,
    OnePair,
    TwoPair,
    ThreeOfAKind,
    FullHouse,
    FourOfAKind,
    FiveOfAKind,
}

/// A card, by its byte.
#[derive(Clone, Copy, Debug, PartialEq, Eq, Structural)]
pub struct Card(pub u8);

/// The bytes that stand for a card: a digit, `A`, `K`, `Q`, `J` or `T`.
pub open spec fn is_card(b: u8) -> bool {
    (48 <= b <= 57) || b == 65 || b == 75 || b == 81 || b == 74 || b == 84
}

/// The slot of a card among the card values: a digit's value, then `A` 10,
/// `K` 11, `Q` 12, `J` 13 and `T` 14.
pub open spec fn card_index(b: u8) -> int {
    if 48 <= b <= 57 {
        b - 48
    } else if b == 65 {
        10
    } else if b == 75 {
        11
    } else if b == 81 {
        12
    } else if b == 74 {
        13
    } else {
        14
    }
}

/// The strength of a card: a digit's value, then `T` 10, `J` 11, `Q` 12,
/// `K` 13 and `A` 14; with jokers, the jack is weakest of all.
pub open spec fn strength(b: u8, jokers: bool) -> int {
    if jokers && b == JACK {
        -1
    } else if 48 <= b <= 57 {
        b - 48
    } else if b == 84 {
        10
    } else if b == 74 {
        11
    } else if b == 81 {
        12
    } else if b == 75 {
        13
    } else {
        14
    }
}

/// How two integers compare.
pub open spec fn ordering(a: int, b: int) -> Ordering {
    if a < b {
        Ordering::Less
    } else if a == b {
        Ordering::Equal
    } else {
        Ordering::Greater
    }
}

impl Card {
    /// The slot of the card among the card values.
    pub fn to_index(self) -> (r: usize)
        requires
            is_card(self.0),
        ensures
            r == card_index(self.0),
    {
        let b = self.0;
        if 48 <= b && b <= 57 {
            (b - 48) as usize
        } else if b == 65 {
            10
        } else if b == 75 {
            11
        } else if b == 81 {
            12
        } else if b == 74 {
            13
        } else {
            14
        }
    }
}

/// The strength of a card.
fn strength_of(b: u8, jokers: bool) -> (r: i8)
    requires
        is_card(b),
    ensures
        r == strength(b, jokers),
{
    if jokers && b == JACK {
        -1
    } else if 48 <= b && b <= 57 {
        (b - 48) as i8
    } else if b == 84 {
        10
    } else if b == 74 {
        11
    } else if b == 81 {
        12
    } else if b == 75 {
        13
    } else {
        14
    }
}

/// A card ordered as in the first reading: digits by value, then `T`, `J`,
/// `Q`, `K`, `A`.
#[derive(Clone, Copy, Debug, PartialEq, Eq, Structural)]
pub struct CardOrdPart1(pub Card);

impl CardOrdPart1 {
    /// How the two cards compare in the first reading.
    pub fn cmp(&self, other: &Self) -> (r: Ordering)
        requires
            is_card(self.0.0),
            is_card(other.0.0),
        ensures
            r == ordering(strength(self.0.0, false), strength(other.0.0, false)),
    {
        let a = strength_of(self.0.0, false);
        let b = strength_of(other.0.0, false);
        if a < b {
            Ordering::Less
        } else if a == b {
            Ordering::Equal
        } else {
            Ordering::Greater
        }
    }
}

/// A card ordered as in the second reading: the jack weakest, the others as
/// in the first reading.
#[derive(Clone, Copy, Debug, PartialEq, Eq, Structural)]
pub struct CardOrdPart2(pub Card);

impl CardOrdPart2 {
    /// How the two cards compare in the second reading.
    pub fn cmp(&self, other: &Self) -> (r: Ordering)
        requires
            is_card(self.0.0),
            is_card(other.0.0),
        ensures
            r == ordering(strength(self.0.0, true), strength(other.0.0, true)),
    {
        if self.0.0 == JACK && other.0.0 == JACK {
            Ordering::Equal
        } else if self.0.0 == JACK {
            Ordering::Less
        } else if other.0.0 == JACK {
            Ordering::Greater
        } else {
            CardOrdPart1(self.0).cmp(&CardOrdPart1(other.0))
        }
    }
}

/// How many of the cards fill slot `i`.
pub open spec fn count_of(cards: Seq<u8>, i: int) -> int
    decreases cards.len(),
{
    if cards.len() == 0 {
        0
    } else {
        count_of(cards.drop_last(), i) + if card_index(cards.last()) == i {
            1int
        } else {
            0int
        }
    }
}

/// How many cards fill each slot; with jokers, the jacks are left out.
pub open spec fn slot_counts(cards: Seq<u8>, jokers: bool) -> Seq<int> {
    Seq::new(CARD_VALUES as nat, |i: int| if jokers && i == 13 { 0 } else { count_of(cards, i) })
}

/// The largest of the first `n` counts, or 0.
pub open spec fn max_of(c: Seq<int>, n: int) -> int
    decreases n,
{
    if n <= 0 {
        0
    } else {
        let m = max_of(c, n - 1);
        if c[n - 1] > m {
            c[n - 1]
        } else {
            m
        }
    }
}

/// The first slot at or after `i` holding `v`, or the number of slots.
pub open spec fn first_with(c: Seq<int>, v: int, i: int) -> int
    decreases c.len() - i,
{
    if i < 0 || i >= c.len() {
        c.len() as int
    } else if c[i] == v {
        i
    } else {
        first_with(c, v, i + 1)
    }
}

/// The largest of the first `n` counts but the one in slot `skip`, or 0.
pub open spec fn max_except(c: Seq<int>, skip: int, n: int) -> int
    decreases n,
{
    if n <= 0 {
        0
    } else {
        let m = max_except(c, skip, n - 1);
        if n - 1 != skip && c[n - 1] > m {
            c[n - 1]
        } else {
            m
        }
    }
}

/// The kind of a hand whose largest group, jokers added, has `n` cards and
/// whose next largest group has `second`.
pub open spec fn kind_of(n: int, second: int) -> Kind {
    if n >= 5 {
        Kind::FiveOfAKind
    } else if n == 4 {
        Kind::FourOfAKind
    } else if n == 3 && second == 2 {
        Kind::FullHouse
    } else if n == 3 {
        Kind::ThreeOfAKind
    } else if n == 2 && second == 2 {
        Kind::TwoPair
    } else if n == 2 {
        Kind::OnePair
    } else {
        Kind::HighCard
    }
}

/// The kind of a hand.
pub open spec fn hand_kind(cards: Seq<u8>, jokers: bool) -> Kind {
    let c = slot_counts(cards, jokers);
    let top = max_of(c, CARD_VALUES as int);
    let extra = if jokers { count_of(cards, 13) } else { 0 };
    kind_of(top + extra, max_except(c, first_with(c, top, 0), CARD_VALUES as int))
}

/// The place of a kind, weakest first.
pub open spec fn kind_rank(k: Kind) -> int {
    match k {
        Kind::HighCard => 0,
        Kind::OnePair => 1,
        Kind::TwoPair => 2,
        Kind::ThreeOfAKind => 3,
        Kind::FullHouse => 4,
        Kind::FourOfAKind => 5,
        Kind::FiveOfAKind => 6,
    }
}

/// What hands are ordered by: the kind, then the strength of each card in
/// turn.
pub open spec fn hand_key(cards: Seq<u8>, jokers: bool) -> Seq<int> {
    seq![kind_rank(hand_kind(cards, jokers))] + cards.map_values(|b: u8| strength(b, jokers))
}

/// `a` comes before `b` in lexicographic order.
pub open spec fn lex_less(a: Seq<int>, b: Seq<int>) -> bool
    decreases a.len(),
{
    if a.len() == 0 || b.len() == 0 {
        a.len() < b.len()
    } else if a[0] != b[0] {
        a[0] < b[0]
    } else {
        lex_less(a.subrange(1, a.len() as int), b.subrange(1, b.len() as int))
    }
}

/// The hands, among the first `n`, ranked below hand `i`: the weaker ones,
/// and the equal ones listed before it.
pub open spec fn below(keys: Seq<Seq<int>>, i: int, n: int) -> int
    decreases n,
{
    if n <= 0 {
        0
    } else {
        below(keys, i, n - 1) + if lex_less(keys[n - 1], keys[i]) || (n - 1 < i && keys[n - 1] == keys[i]) {
            1int
        } else {
            0int
        }
    }
}

/// The winnings of the first `n` hands: each bid times the hand's rank.
pub open spec fn winnings(keys: Seq<Seq<int>>, bids: Seq<int>, n: int) -> int
    decreases n,
{
    if n <= 0 {
        0
    } else {
        winnings(keys, bids, n - 1) + bids[n - 1] * (below(keys, n - 1, keys.len() as int) + 1)
    }
}

/// The cards of a hand line.
pub open spec fn hand_of(line: Seq<u8>) -> Seq<u8> {
    line.subrange(0, first_index_of(line, SPACE))
}

/// The bid of a hand line.
pub open spec fn bid_of(line: Seq<u8>) -> int {
    signed_value(line.subrange(first_index_of(line, SPACE) + 1, line.len() as int))
}

/// A hand line: five cards, a space and a bid.
pub open spec fn hand_line_ok(line: Seq<u8>) -> bool {
    &&& first_index_of(line, SPACE) == CARDS_PER_HAND
    &&& forall|k: int| 0 <= k < CARDS_PER_HAND ==> is_card(#[trigger] line[k])
    &&& is_signed_number(line.subrange(first_index_of(line, SPACE) + 1, line.len() as int))
}

/// The keys of the hands of the lines.
pub open spec fn keys_of(ls: Seq<Seq<u8>>, jokers: bool) -> Seq<Seq<int>> {
    Seq::new(ls.len(), |i: int| hand_key(hand_of(ls[i]), jokers))
}

/// The bids of the lines.
pub open spec fn bids_of(ls: Seq<Seq<u8>>) -> Seq<int> {
    Seq::new(ls.len(), |i: int| bid_of(ls[i]))
}

/// The total winnings of the hands of the lines.
pub open spec fn total_winnings(ls: Seq<Seq<u8>>, jokers: bool) -> int {
    winnings(keys_of(ls, jokers), bids_of(ls), ls.len() as int)
}

/// Every line is a hand line and every running sum and product of the
/// winnings fits in an `i64`.
pub open spec fn game_fits(ls: Seq<Seq<u8>>, jokers: bool) -> bool {
    &&& forall|k: int| 0 <= k < ls.len() ==> hand_line_ok(#[trigger] ls[k])
    &&& ls.len() < i64::MAX
    &&& forall|n: int|
        0 <= n < ls.len() ==> i64::MIN <= #[trigger] bids_of(ls)[n] * (below(keys_of(ls, jokers), n, ls.len() as int) + 1)
            <= i64::MAX
    &&& forall|n: int| 0 <= n <= ls.len() ==> i64::MIN <= #[trigger] winnings(keys_of(ls, jokers), bids_of(ls), n) <= i64::MAX
}

/// The values of a sequence of machine integers.
pub open spec fn vals(v: Seq<i64>) -> Seq<int> {
    v.map_values(|x: i64| x as int)
}

/// The views of a sequence of key vectors.
pub open spec fn key_views(v: Seq<Vec<i64>>) -> Seq<Seq<int>> {
    v.map_values(|k: Vec<i64>| k@.map_values(|x: i64| x as int))
}

/// The key of a hand of five cards.
fn key_of_hand(cards: &[u8], jokers: bool) -> (r: Vec<i64>)
    requires
        cards@.len() == CARDS_PER_HAND,
        forall|k: int| 0 <= k < CARDS_PER_HAND ==> is_card(#[trigger] cards@[k]),
    ensures
        r@.map_values(|x: i64| x as int) == hand_key(cards@, jokers),
{
    let ghost cs = cards@;
    let mut counts: Vec<i64> = Vec::new();
    let mut i: usize = 0;
    while i < CARD_VALUES
        invariant
            i <= CARD_VALUES,
            counts@.len() == i,
            forall|t: int| 0 <= t < i ==> counts@[t] == 0,
        decreases CARD_VALUES - i,
    {
        counts.push(0);
        i = i + 1;
    }
    let mut k: usize = 0;
    while k < CARDS_PER_HAND
        invariant
            k <= CARDS_PER_HAND,
            cs == cards@,
            cs.len() == CARDS_PER_HAND,
            forall|t: int| 0 <= t < CARDS_PER_HAND ==> is_card(#[trigger] cs[t]),
            counts@.len() == CARD_VALUES,
            forall|t: int| 0 <= t < CARD_VALUES ==> #[trigger] counts@[t] == count_of(cs.subrange(0, k as int), t),
            forall|t: int| 0 <= t < CARD_VALUES ==> 0 <= #[trigger] counts@[t] <= k,
        decreases CARDS_PER_HAND - k,
    {
        let idx = Card(cards[k]).to_index();
        let c = counts[idx];
        counts.set(idx, c + 1);
        proof {
            assert(cs.subrange(0, k + 1).drop_last() =~= cs.subrange(0, k as int));
            assert forall|t: int| 0 <= t < CARD_VALUES implies #[trigger] counts@[t] == count_of(
                cs.subrange(0, k + 1),
                t,
            ) by {
                assert(count_of(cs.subrange(0, k + 1), t) == count_of(cs.subrange(0, k as int), t) + if card_index(
                    cs[k as int],
                ) == t {
                    1int
                } else {
                    0int
                });
            }
        }
        k = k + 1;
    }
    proof {
        assert(cs.subrange(0, CARDS_PER_HAND as int) =~= cs);
    }
    let mut extra: i64 = 0;
    if jokers {
        extra = counts[13];
        counts.set(13, 0);
    }
    let ghost c = slot_counts(cs, jokers);
    proof {
        assert(vals(counts@) =~= c);
    }
    let mut top: i64 = 0;
    let mut t: usize = 0;
    while t < CARD_VALUES
        invariant
            t <= CARD_VALUES,
            vals(counts@) == c,
            c.len() == CARD_VALUES,
            top == max_of(c, t as int),
            forall|u: int| 0 <= u < CARD_VALUES ==> 0 <= #[trigger] c[u] <= 5,
            0 <= top <= 5,
        decreases CARD_VALUES - t,
    {
        proof {
            assert(vals(counts@)[t as int] == counts@[t as int]);
        }
        if counts[t] > top {
            top = counts[t];
        }
        t = t + 1;
    }
    let mut at: usize = 0;
    while at < CARD_VALUES && counts[at] != top
        invariant
            at <= CARD_VALUES,
            vals(counts@) == c,
            c.len() == CARD_VALUES,
            first_with(c, top as int, 0) == first_with(c, top as int, at as int),
        decreases CARD_VALUES - at,
    {
        proof {
            assert(vals(counts@)[at as int] == counts@[at as int]);
        }
        at = at + 1;
    }
    proof {
        assert(first_with(c, top as int, 0) == at);
    }
    let mut second: i64 = 0;
    let mut t: usize = 0;
    while t < CARD_VALUES
        invariant
            t <= CARD_VALUES,
            vals(counts@) == c,
            c.len() == CARD_VALUES,
            second == max_except(c, at as int, t as int),
            forall|u: int| 0 <= u < CARD_VALUES ==> 0 <= #[trigger] c[u] <= 5,
            0 <= second <= 5,
        decreases CARD_VALUES - t,
    {
        proof {
            assert(vals(counts@)[t as int] == counts@[t as int]);
        }
        if t != at && counts[t] > second {
            second = counts[t];
        }
        t = t + 1;
    }
    let n = top + extra;
    let kind = if n >= 5 {
        Kind::FiveOfAKind
    } else if n == 4 {
        Kind::FourOfAKind
    } else if n == 3 && second == 2 {
        Kind::FullHouse
    } else if n == 3 {
        Kind::ThreeOfAKind
    } else if n == 2 && second == 2 {
        Kind::TwoPair
    } else if n == 2 {
        Kind::OnePair
    } else {
        Kind::HighCard
    };
    let rank: i64 = match kind {
        Kind::HighCard => 0,
        Kind::OnePair => 1,
        Kind::TwoPair => 2,
        Kind::ThreeOfAKind => 3,
        Kind::FullHouse => 4,
        Kind::FourOfAKind => 5,
        Kind::FiveOfAKind => 6,
    };
    let mut key: Vec<i64> = vec![rank];
    let mut k: usize = 0;
    while k < CARDS_PER_HAND
        invariant
            k <= CARDS_PER_HAND,
            cs == cards@,
            cs.len() == CARDS_PER_HAND,
            forall|t: int| 0 <= t < CARDS_PER_HAND ==> is_card(#[trigger] cs[t]),
            key@.len() == k + 1,
            key@.map_values(|x: i64| x as int) == hand_key(cs, jokers).subrange(0, k + 1),
        decreases CARDS_PER_HAND - k,
    {
        let st = strength_of(cards[k], jokers);
        key.push(st as i64);
        proof {
            assert(key@.map_values(|x: i64| x as int) =~= hand_key(cs, jokers).subrange(0, k + 2));
        }
        k = k + 1;
    }
    proof {
        assert(hand_key(cs, jokers).len() == CARDS_PER_HAND + 1);
        assert(hand_key(cs, jokers).subrange(0, CARDS_PER_HAND + 1) =~= hand_key(cs, jokers));
    }
    key
}

/// Whether key `a` comes before key `b`.
fn key_less(a: &Vec<i64>, b: &Vec<i64>) -> (r: bool)
    ensures
        r == lex_less(vals(a@), vals(b@)),
{
    let ghost va = vals(a@);
    let ghost vb = vals(b@);
    proof {
        assert(va.subrange(0, va.len() as int) =~= va);
        assert(vb.subrange(0, vb.len() as int) =~= vb);
    }
    let mut i: usize = 0;
    while i < a.len() && i < b.len() && a[i] == b[i]
        invariant
            i <= a@.len(),
            i <= b@.len(),
            va == vals(a@),
            vb == vals(b@),
            lex_less(va, vb) == lex_less(va.subrange(i as int, va.len() as int), vb.subrange(i as int, vb.len() as int)),
        decreases a@.len() - i,
    {
        proof {
            let sa = va.subrange(i as int, va.len() as int);
            let sb = vb.subrange(i as int, vb.len() as int);
            assert(sa[0] == sb[0]);
            assert(sa.subrange(1, sa.len() as int) =~= va.subrange(i + 1, va.len() as int));
            assert(sb.subrange(1, sb.len() as int) =~= vb.subrange(i + 1, vb.len() as int));
        }
        i = i + 1;
    }
    proof {
        let sa = va.subrange(i as int, va.len() as int);
        let sb = vb.subrange(i as int, vb.len() as int);
        if i < a@.len() && i < b@.len() {
            assert(sa[0] == a@[i as int] && sb[0] == b@[i as int]);
        }
    }
    if i < a.len() && i < b.len() {
        a[i] < b[i]
    } else {
        a.len() - i < b.len() - i
    }
}

/// Whether two keys are equal.
fn key_equal(a: &Vec<i64>, b: &Vec<i64>) -> (r: bool)
    ensures
        r == (vals(a@) == vals(b@)),
{
    if a.len() != b.len() {
        proof {
            assert(vals(a@).len() != vals(b@).len());
        }
        return false;
    }
    let mut i: usize = 0;
    while i < a.len()
        invariant
            i <= a@.len(),
            a@.len() == b@.len(),
            forall|k: int| 0 <= k < i ==> a@[k] == b@[k],
        decreases a@.len() - i,
    {
        if a[i] != b[i] {
            proof {
                assert(vals(a@)[i as int] != vals(b@)[i as int]);
            }
            return false;
        }
        i = i + 1;
    }
    proof {
        assert(vals(a@) =~= vals(b@));
    }
    true
}

/// The total winnings of the hands of `input`, one per line, each bid
/// times the hand's rank from the weakest.
fn solve(input: &str, jokers: bool) -> (r: i64)
    requires
        game_fits(lines(input.spec_bytes()), jokers),
    ensures
        r == total_winnings(lines(input.spec_bytes()), jokers),
{
    let ls = split_lines(input.as_bytes());
    let ghost all = lines(input.spec_bytes());
    let ghost ks = keys_of(all, jokers);
    let ghost bs = bids_of(all);
    proof {
        assert(views(ls@).len() == ls@.len());
    }
    let n = ls.len();
    let mut keys: Vec<Vec<i64>> = Vec::new();
    let mut bids: Vec<i64> = Vec::new();
    let mut i: usize = 0;
    while i < n
        invariant
            i <= n,
            n == ls@.len(),
            views(ls@) == all,
            game_fits(all, jokers),
            ks == keys_of(all, jokers),
            bs == bids_of(all),
            keys@.len() == i,
            bids@.len() == i,
            forall|k: int| 0 <= k < i ==> vals(#[trigger] keys@[k]@) == ks[k],
            forall|k: int| 0 <= k < i ==> #[trigger] bids@[k] as int == bs[k],
        decreases n - i,
    {
        proof {
            assert(all[i as int] == ls@[i as int]@);
            assert(hand_line_ok(all[i as int]));
        }
        let (hand, bid_text) = match split_once_byte(ls[i].as_slice(), SPACE) {
            Some(parts) => parts,
            None => {
                return 0;
            },
        };
        let key = key_of_hand(hand.as_slice(), jokers);
        let bid = parse_signed(bid_text.as_slice());
        keys.push(key);
        bids.push(bid);
        i = i + 1;
    }
    proof {
        assert(key_views(keys@) =~= ks);
    }
    let mut total: i64 = 0;
    let mut i: usize = 0;
    while i < n
        invariant
            i <= n,
            n == all.len(),
            game_fits(all, jokers),
            ks == keys_of(all, jokers),
            bs == bids_of(all),
            keys@.len() == n,
            bids@.len() == n,
            forall|k: int| 0 <= k < n ==> vals(#[trigger] keys@[k]@) == ks[k],
            forall|k: int| 0 <= k < n ==> #[trigger] bids@[k] as int == bs[k],
            total == winnings(ks, bs, i as int),
        decreases n - i,
    {
        let mut rank: i64 = 0;
        let mut j: usize = 0;
        while j < n
            invariant
                i < n,
                j <= n,
                n == all.len(),
                n < i64::MAX,
                ks.len() == n,
                keys@.len() == n,
                forall|k: int| 0 <= k < n ==> vals(#[trigger] keys@[k]@) == ks[k],
                rank == below(ks, i as int, j as int),
                0 <= rank <= j,
            decreases n - j,
        {
            let less = key_less(&keys[j], &keys[i]);
            let same = j < i && key_equal(&keys[j], &keys[i]);
            proof {
                assert(vals(keys@[j as int]@) == ks[j as int]);
                assert(vals(keys@[i as int]@) == ks[i as int]);
            }
            if less || same {
                rank = rank + 1;
            }
            j = j + 1;
        }
        proof {
            assert(i64::MIN <= bs[i as int] * (below(ks, i as int, n as int) + 1) <= i64::MAX);
            assert(i64::MIN <= winnings(ks, bs, i + 1) <= i64::MAX);
            assert(bids@[i as int] as int == bs[i as int]);
        }
        total = total + bids[i] * (rank + 1);
        i = i + 1;
    }
    total
}

/// The total winnings of the hands of `input`, one per line, in the first
/// reading.
pub fn part1(input: &str) -> (r: i64)
    requires
        game_fits(lines(input.spec_bytes()), false),
    ensures
        r == total_winnings(lines(input.spec_bytes()), false),
{
    solve(input, false)
}

/// The total winnings of the hands of `input`, one per line, with the jack
/// read as a joker that joins the largest group and ranks weakest.
pub fn part2(input: &str) -> (r: i64)
    requires
        game_fits(lines(input.spec_bytes()), true),
    ensures
        r == total_winnings(lines(input.spec_bytes()), true),
{
    solve(input, true)
}

} // verus!
