//! Games of cubes drawn from a bag: which games the bag allows, and the
//! fewest cubes each game needs.

use crate::text::first_index_of;
use crate::text::first_pair_from;
use crate::text::is_i32_number;
use crate::text::lines;
use crate::text::pair_pieces;
use crate::text::parse_signed;
use crate::text::signed_value;
use crate::text::split_lines;
use crate::text::split_on_pair;
use crate::text::split_once_byte;
use crate::text::split_once_pair;
use crate::text::views;
use crate::text::copy_range;
use crate::text::SPACE;
use vstd::prelude::*;
use vstd::string::StringSliceAdditionalSpecFns;

verus! {

/// The cubes of each colour.
#[derive(Clone, Copy, Debug, PartialEq, Eq, Structural)]
pub struct Bag {
    pub red: i32,
    pub green: i32,
    pub blue: i32,
}

/// The colour a name stands for: 0 for `red`, 1 for `green`, 2 for `blue`,
/// -1 for any other name.
pub open spec fn color_index(c: Seq<u8>) -> int {
    if c == seq![114u8, 101, 100] {
        0
    } else if c == seq![103u8, 114, 101, 101, 110] {
        1
    } else if c == seq![98u8, 108, 117, 101] {
        2
    } else {
        -1
    }
}

/// The count of a draw `<count> <colour>`.
pub open spec fn draw_count(item: Seq<u8>) -> int {
    signed_value(item.subrange(0, first_index_of(item, SPACE)))
}

/// The colour of a draw `<count> <colour>`.
pub open spec fn draw_color(item: Seq<u8>) -> int {
    color_index(item.subrange(first_index_of(item, SPACE) + 1, item.len() as int))
}

/// A draw is a count that fits in an `i32`, a space and a colour.
pub open spec fn draw_ok(item: Seq<u8>) -> bool {
    &&& first_index_of(item, SPACE) >= 0
    &&& is_i32_number(item.subrange(0, first_index_of(item, SPACE)))
    &&& draw_color(item) >= 0
}

/// The cubes of each colour that a handful of draws shows, added up.
pub open spec fn totals(items: Seq<Seq<u8>>) -> (int, int, int)
    decreases items.len(),
{
    if items.len() == 0 {
        (0, 0, 0)
    } else {
        let t = totals(items.drop_last());
        let n = draw_count(items.last());
        let c = draw_color(items.last());
        if c == 0 {
            (t.0 + n, t.1, t.2)
        } else if c == 1 {
            (t.0, t.1 + n, t.2)
        } else {
            (t.0, t.1, t.2 + n)
        }
    }
}

/// `x` fits in an `i32`.
pub open spec fn in_i32(x: int) -> bool {
    i32::MIN <= x <= i32::MAX
}

/// The draws of a handful, separated by `, `.
pub open spec fn draws(set: Seq<u8>) -> Seq<Seq<u8>> {
    pair_pieces(set, 44, SPACE)
}

/// Every draw of a handful is well formed and every running total fits in
/// an `i32`.
pub open spec fn handful_ok(set: Seq<u8>) -> bool {
    &&& forall|k: int| 0 <= k < draws(set).len() ==> draw_ok(#[trigger] draws(set)[k])
    &&& forall|k: int|
        0 <= k <= draws(set).len() ==> {
            let t = #[trigger] totals(draws(set).subrange(0, k));
            in_i32(t.0) && in_i32(t.1) && in_i32(t.2)
        }
}

/// The cubes of each colour that a handful shows.
pub open spec fn handful(set: Seq<u8>) -> (int, int, int) {
    totals(draws(set))
}

/// The bytes after `Game `.
pub open spec fn after_label(line: Seq<u8>) -> Seq<u8> {
    line.subrange(5, line.len() as int)
}

/// The offset in `after_label(line)` of the `: ` after the game's number.
pub open spec fn colon_at(line: Seq<u8>) -> int {
    first_pair_from(after_label(line), 58, SPACE, 0)
}

/// The game's number.
pub open spec fn game_id(line: Seq<u8>) -> int {
    signed_value(after_label(line).subrange(0, colon_at(line)))
}

/// The handfuls of a game, separated by `; `.
pub open spec fn handfuls(line: Seq<u8>) -> Seq<Seq<u8>> {
    pair_pieces(after_label(line).subrange(colon_at(line) + 2, after_label(line).len() as int), 59, SPACE)
}

/// A line `Game <number>: <handfuls>` whose number fits in an `i32` and
/// whose handfuls are well formed.
pub open spec fn game_ok(line: Seq<u8>) -> bool {
    &&& line.len() >= 5
    &&& line.subrange(0, 5) == seq![71u8, 97, 109, 101, 32]
    &&& colon_at(line) >= 0
    &&& is_i32_number(after_label(line).subrange(0, colon_at(line)))
    &&& forall|k: int| 0 <= k < handfuls(line).len() ==> handful_ok(#[trigger] handfuls(line)[k])
}

/// No handful of the game shows more than 12 red, 13 green or 14 blue cubes.
pub open spec fn possible(line: Seq<u8>) -> bool {
    forall|k: int|
        0 <= k < handfuls(line).len() ==> {
            let t = #[trigger] handful(handfuls(line)[k]);
            t.0 <= 12 && t.1 <= 13 && t.2 <= 14
        }
}

/// The sum of the numbers of the possible games.
pub open spec fn sum_of_possible(ls: Seq<Seq<u8>>) -> int
    decreases ls.len(),
{
    if ls.len() == 0 {
        0
    } else {
        sum_of_possible(ls.drop_last()) + if possible(ls.last()) {
            game_id(ls.last())
        } else {
            0
        }
    }
}

/// The most cubes of each colour shown by the first `n` handfuls, starting
/// from none.
pub open spec fn fewest(sets: Seq<Seq<u8>>, n: int) -> (int, int, int)
    decreases n,
{
    if n <= 0 {
        (0, 0, 0)
    } else {
        let f = fewest(sets, n - 1);
        let t = handful(sets[n - 1]);
        (
            if f.0 < t.0 { t.0 } else { f.0 },
            if f.1 < t.1 { t.1 } else { f.1 },
            if f.2 < t.2 { t.2 } else { f.2 },
        )
    }
}

/// The power of a game: the product of the fewest cubes of each colour.
pub open spec fn power(line: Seq<u8>) -> int {
    let f = fewest(handfuls(line), handfuls(line).len() as int);
    f.0 * f.1 * f.2
}

/// The sum of the powers of the games.
pub open spec fn sum_of_powers(ls: Seq<Seq<u8>>) -> int
    decreases ls.len(),
{
    if ls.len() == 0 {
        0
    } else {
        sum_of_powers(ls.drop_last()) + power(ls.last())
    }
}

/// Every line is a game and every running sum of game numbers fits.
pub open spec fn games_ok(ls: Seq<Seq<u8>>) -> bool {
    forall|k: int| 0 <= k < ls.len() ==> game_ok(#[trigger] ls[k])
}

/// The colour a name stands for.
fn color_of(c: &[u8]) -> (r: i32)
    ensures
        r == color_index(c@),
{
    if c.len() == 3 && c[0] == 114 && c[1] == 101 && c[2] == 100 {
        proof {
            assert(c@ =~= seq![114u8, 101, 100]);
        }
        0
    } else if c.len() == 5 && c[0] == 103 && c[1] == 114 && c[2] == 101 && c[3] == 101 && c[4] == 110 {
        proof {
            assert(c@ =~= seq![103u8, 114, 101, 101, 110]);
        }
        1
    } else if c.len() == 4 && c[0] == 98 && c[1] == 108 && c[2] == 117 && c[3] == 101 {
        proof {
            assert(c@ =~= seq![98u8, 108, 117, 101]);
        }
        2
    } else {
        proof {
            assert(c@ != seq![114u8, 101, 100] ==> true);
            if c@ == seq![114u8, 101, 100] {
                assert(c@.len() == 3 && c@[0] == 114 && c@[1] == 101 && c@[2] == 100);
            }
            if c@ == seq![103u8, 114, 101, 101, 110] {
                assert(c@.len() == 5 && c@[0] == 103 && c@[1] == 114 && c@[4] == 110);
            }
            if c@ == seq![98u8, 108, 117, 101] {
                assert(c@.len() == 4 && c@[0] == 98 && c@[1] == 108 && c@[3] == 101);
            }
        }
        -1
    }
}

/// The cubes of each colour that a handful shows.
fn handful_of(set: &[u8]) -> (r: Bag)
    requires
        handful_ok(set@),
    ensures
        (r.red as int, r.green as int, r.blue as int) == handful(set@),
{
    let items = split_on_pair(set, 44, SPACE);
    let ghost all = draws(set@);
    proof {
        assert(views(items@).len() == items@.len());
    }
    let mut bag = Bag { red: 0, green: 0, blue: 0 };
    let mut i: usize = 0;
    while i < items.len()
        invariant
            i <= items@.len(),
            views(items@) == all,
            all == draws(set@),
            handful_ok(set@),
            (bag.red as int, bag.green as int, bag.blue as int) == totals(all.subrange(0, i as int)),
        decreases items@.len() - i,
    {
        proof {
            assert(all[i as int] == items@[i as int]@);
            assert(draw_ok(all[i as int]));
            assert(all.subrange(0, i + 1).drop_last() =~= all.subrange(0, i as int));
            let t = totals(all.subrange(0, i + 1));
            assert(in_i32(t.0) && in_i32(t.1) && in_i32(t.2));
        }
        let (count_text, color_text) = match split_once_byte(items[i].as_slice(), SPACE) {
            Some(parts) => parts,
            None => {
                return bag;
            },
        };
        let count = parse_signed(count_text.as_slice());
        let color = color_of(color_text.as_slice());
        if color == 0 {
            bag.red = bag.red + count as i32;
        } else if color == 1 {
            bag.green = bag.green + count as i32;
        } else {
            bag.blue = bag.blue + count as i32;
        }
        i = i + 1;
    }
    proof {
        assert(all.subrange(0, all.len() as int) =~= all);
    }
    bag
}

/// The bag of cubes, one entry for each handful of a game line.
fn game_handfuls(line: &[u8]) -> (r: (i32, Vec<Bag>))
    requires
        game_ok(line@),
    ensures
        r.0 == game_id(line@),
        r.1@.len() == handfuls(line@).len(),
        forall|k: int|
            0 <= k < r.1@.len() ==> ((#[trigger] r.1@[k]).red as int, r.1@[k].green as int, r.1@[k].blue as int)
                == handful(handfuls(line@)[k]),
{
    let rest = copy_range(line, 5, line.len());
    let (id_text, sets_text) = match split_once_pair(rest.as_slice(), 58, SPACE) {
        Some(parts) => parts,
        None => {
            return (0, Vec::new());
        },
    };
    let id = parse_signed(id_text.as_slice()) as i32;
    let sets = split_on_pair(sets_text.as_slice(), 59, SPACE);
    let ghost all = handfuls(line@);
    proof {
        assert(views(sets@).len() == sets@.len());
    }
    let mut out: Vec<Bag> = Vec::new();
    let mut i: usize = 0;
    while i < sets.len()
        invariant
            i <= sets@.len(),
            views(sets@) == all,
            all == handfuls(line@),
            game_ok(line@),
            out@.len() == i,
            forall|k: int|
                0 <= k < i ==> ((#[trigger] out@[k]).red as int, out@[k].green as int, out@[k].blue as int)
                    == handful(all[k]),
        decreases sets@.len() - i,
    {
        proof {
            assert(all[i as int] == sets@[i as int]@);
        }
        let b = handful_of(sets[i].as_slice());
        out.push(b);
        i = i + 1;
    }
    (id, out)
}

/// The sum of the numbers of the games of `input`, one per line, that a bag
/// of 12 red, 13 green and 14 blue cubes allows.
pub fn part1(input: &str) -> (r: i32)
    requires
        games_ok(lines(input.spec_bytes())),
        forall|k: int|
            0 <= k <= lines(input.spec_bytes()).len() ==> in_i32(
                #[trigger] sum_of_possible(lines(input.spec_bytes()).subrange(0, k)),
            ),
    ensures
        r == sum_of_possible(lines(input.spec_bytes())),
{
    let ls = split_lines(input.as_bytes());
    let ghost all = lines(input.spec_bytes());
    proof {
        assert(views(ls@).len() == ls@.len());
    }
    let mut sum: i32 = 0;
    let mut i: usize = 0;
    while i < ls.len()
        invariant
            i <= ls@.len(),
            views(ls@) == all,
            all == lines(input.spec_bytes()),
            games_ok(all),
            forall|k: int| 0 <= k <= all.len() ==> in_i32(#[trigger] sum_of_possible(all.subrange(0, k))),
            sum == sum_of_possible(all.subrange(0, i as int)),
        decreases ls@.len() - i,
    {
        proof {
            assert(all[i as int] == ls@[i as int]@);
            assert(game_ok(all[i as int]));
        }
        let (id, bags) = game_handfuls(ls[i].as_slice());
        let ghost sets = handfuls(all[i as int]);
        let mut ok = true;
        let mut j: usize = 0;
        while j < bags.len()
            invariant
                j <= bags@.len(),
                bags@.len() == sets.len(),
                forall|k: int|
                    0 <= k < bags@.len() ==> ((#[trigger] bags@[k]).red as int, bags@[k].green as int, bags@[k].blue
                        as int) == handful(sets[k]),
                ok == forall|k: int|
                    0 <= k < j ==> {
                        let t = #[trigger] handful(sets[k]);
                        t.0 <= 12 && t.1 <= 13 && t.2 <= 14
                    },
            decreases bags@.len() - j,
        {
            let b = bags[j];
            proof {
                assert((b.red as int, b.green as int, b.blue as int) == handful(sets[j as int]));
            }
            if !(b.red <= 12 && b.green <= 13 && b.blue <= 14) {
                ok = false;
            }
            j = j + 1;
        }
        proof {
            assert(ok == possible(all[i as int]));
            assert(all.subrange(0, i + 1).drop_last() =~= all.subrange(0, i as int));
            assert(in_i32(sum_of_possible(all.subrange(0, i + 1))));
        }
        if ok {
            sum = sum + id;
        }
        i = i + 1;
    }
    proof {
        assert(all.subrange(0, all.len() as int) =~= all);
    }
    sum
}

/// The sum over the games of `input`, one per line, of the product of the
/// fewest red, green and blue cubes that each game needs.
pub fn part2(input: &str) -> (r: i32)
    requires
        games_ok(lines(input.spec_bytes())),
        forall|k: int|
            0 <= k < lines(input.spec_bytes()).len() ==> {
                let sets = #[trigger] handfuls(lines(input.spec_bytes())[k]);
                let f = fewest(sets, sets.len() as int);
                in_i32(f.0 * f.1) && in_i32(f.0 * f.1 * f.2)
            },
        forall|k: int|
            0 <= k <= lines(input.spec_bytes()).len() ==> in_i32(
                #[trigger] sum_of_powers(lines(input.spec_bytes()).subrange(0, k)),
            ),
    ensures
        r == sum_of_powers(lines(input.spec_bytes())),
{
    let ls = split_lines(input.as_bytes());
    let ghost all = lines(input.spec_bytes());
    proof {
        assert(views(ls@).len() == ls@.len());
    }
    let mut sum: i32 = 0;
    let mut i: usize = 0;
    while i < ls.len()
        invariant
            i <= ls@.len(),
            views(ls@) == all,
            all == lines(input.spec_bytes()),
            games_ok(all),
            forall|k: int|
                0 <= k < all.len() ==> {
                    let sets = #[trigger] handfuls(all[k]);
                    let f = fewest(sets, sets.len() as int);
                    in_i32(f.0 * f.1) && in_i32(f.0 * f.1 * f.2)
                },
            forall|k: int| 0 <= k <= all.len() ==> in_i32(#[trigger] sum_of_powers(all.subrange(0, k))),
            sum == sum_of_powers(all.subrange(0, i as int)),
        decreases ls@.len() - i,
    {
        proof {
            assert(all[i as int] == ls@[i as int]@);
            assert(game_ok(all[i as int]));
        }
        let (_, bags) = game_handfuls(ls[i].as_slice());
        let ghost sets = handfuls(all[i as int]);
        let mut most = Bag { red: 0, green: 0, blue: 0 };
        let mut j: usize = 0;
        while j < bags.len()
            invariant
                j <= bags@.len(),
                bags@.len() == sets.len(),
                forall|k: int|
                    0 <= k < bags@.len() ==> ((#[trigger] bags@[k]).red as int, bags@[k].green as int, bags@[k].blue
                        as int) == handful(sets[k]),
                (most.red as int, most.green as int, most.blue as int) == fewest(sets, j as int),
            decreases bags@.len() - j,
        {
            let b = bags[j];
            proof {
                assert((b.red as int, b.green as int, b.blue as int) == handful(sets[j as int]));
            }
            most = Bag {
                red: if most.red < b.red { b.red } else { most.red },
                green: if most.green < b.green { b.green } else { most.green },
                blue: if most.blue < b.blue { b.blue } else { most.blue },
            };
            j = j + 1;
        }
        proof {
            let f = fewest(sets, sets.len() as int);
            assert(in_i32(f.0 * f.1) && in_i32(f.0 * f.1 * f.2));
            assert(all.subrange(0, i + 1).drop_last() =~= all.subrange(0, i as int));
            assert(in_i32(sum_of_powers(all.subrange(0, i + 1))));
        }
        let p = most.red * most.green * most.blue;
        sum = sum + p;
        i = i + 1;
    }
    proof {
        assert(all.subrange(0, all.len() as int) =~= all);
    }
    sum
}

} // verus!
