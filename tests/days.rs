use std::cmp::Ordering;

use aoc::day10::Direction;
use aoc::day10::Edge;
use aoc::day11;
use aoc::day12::Spring;
use aoc::day12;
use aoc::day13;
use aoc::day14;
use aoc::day15;
use aoc::day17::reconstruct_path;
use aoc::day19::Costs;
use aoc::day19::IRange;
use aoc::day1;
use aoc::day2;
use aoc::day3;
use aoc::day4;
use aoc::day5;
use aoc::day6;
use aoc::day7::Card;
use aoc::day7::CardOrdPart1;
use aoc::day7::CardOrdPart2;
use aoc::day7;
use aoc::day9;
use aoc::grid::Position;

const GALAXIES: &str = "...#......
.......#..
#.........
..........
......#...
.#........
.........#
..........
.......#..
#...#.....";

#[test]
fn p1t() {
    let example: &str = "1abc2
pqr3stu8vwx
a1b2c3d4e5f
treb7uchet"
        .trim();
    assert_eq!(day1::part1(example), 142);

    let example: &str = "two1nine
eightwothree
abcone2threexyz
xtwone3four
4nineeightseven2
zoneight234
7pqrstsixteen"
        .trim();

    assert_eq!(day1::part2(example), 281);
}

#[test]
fn overlapping_digit_words() {
    assert_eq!(day1::part2("oneight"), 18);
    assert_eq!(day1::part2("nine"), 99);
    assert_eq!(day1::part2("7"), 77);
    assert_eq!(day1::step(0, 1, 3), (2, 1));
    assert_eq!(day1::step(5, 12, 1), (6, 2));
}

#[test]
fn calibration_of_single_digit_line() {
    assert_eq!(day1::part1("x7y"), 77);
    assert_eq!(day1::part1("12\n34\n"), 12 + 34);
}

#[test]
fn p4t() {
    let inp = "Card 1: 41 48 83 86 17 | 83 86  6 31 17  9 48 53
Card 2: 13 32 20 16 61 | 61 30 68 82 17 32 24 19
Card 3:  1 21 53 59 44 | 69 82 63 72 16 21 14  1
Card 4: 41 92 73 84 69 | 59 84 76 51 58  5 54 83
Card 5: 87 83 26 28 32 | 88 30 70 12 93 22 82 36
Card 6: 31 18 13 56 72 | 74 77 10 23 35 67 36 11
"
    .trim();

    assert_eq!(day4::part1(inp), 13);
    assert_eq!(day4::part2(inp), 30);
}

#[test]
fn p9t() {
    let example = "0 3 6 9 12 15
1 3 6 10 15 21
10 13 16 21 30 45";
    assert_eq!(day9::part1(example), 114);
    assert_eq!(day9::part2(example), 2);
}

#[test]
fn extrapolation_with_negative_numbers() {
    assert_eq!(day9::part1("-1 -2 -3"), -4);
    assert_eq!(day9::part2("-1 -2 -3"), 0);
    assert_eq!(day9::part1("5 5 5"), 5);
}

#[test]
fn p11t() {
    assert_eq!(day11::part1(GALAXIES), 374);
    assert_eq!(day11::part2(GALAXIES), 82000210);
}

#[test]
fn galaxy_coordinates_expand() {
    let cols = [true, false, false, true];
    let rows = [false, true];
    assert_eq!(day11::normalize_coords(&cols, &rows, 3, 1, 10), (21, 10));
    assert_eq!(day11::normalize_coords(&cols, &rows, 0, 0, 10), (0, 0));
}

#[test]
fn p15t() {
    let example = "rn=1,cm-,qp=3,cm=2,qp-,pc=4,ot=9,ab=5,pc-,pc=6,ot=7";
    assert_eq!(day15::part1(example), 1320);
    assert_eq!(day15::part2(example), 145);
}

#[test]
fn lens_replaced_in_place_and_removed() {
    assert_eq!(day15::part2("rn=1,rn=4"), 4);
    assert_eq!(day15::part2("rn=1,rn-"), 0);
    assert_eq!(day15::part2("rn=1,qp=3,rn-"), 3 * 1 * 2);
    assert_eq!(day15::part2("cm-"), 0);
}

#[test]
fn hash_of_word() {
    assert_eq!(day15::hash(b"HASH"), 52);
    assert_eq!(day15::hash(b""), 0);
    assert_eq!(day15::part1("HASH"), 52);
}

#[test]
fn springs_that_may_be_broken() {
    assert!(Spring::Broken.maybe_broken());
    assert!(Spring::Unknown.maybe_broken());
    assert!(!Spring::Operational.maybe_broken());
}

#[test]
fn range_counts_and_categories() {
    assert_eq!(IRange { min: 1, max: 4000 }.values_contained(), 4000);
    assert_eq!(IRange { min: 5, max: 5 }.values_contained(), 1);
    let mut costs = Costs {
        x: IRange { min: 1, max: 4000 },
        m: IRange { min: 1, max: 4000 },
        a: IRange { min: 1, max: 4000 },
        s: IRange { min: 1, max: 4000 },
    };
    costs.range_mut("m").max = 1800;
    costs.range_mut("s").min = 1351;
    assert_eq!(costs.m.max, 1800);
    assert_eq!(costs.s.min, 1351);
    assert_eq!(costs.x.max, 4000);
    assert_eq!(costs.a.min, 1);
}

#[test]
fn p2t() {
    let inp = "Game 1: 3 blue, 4 red; 1 red, 2 green, 6 blue; 2 green
Game 2: 1 blue, 2 green; 3 green, 4 blue, 1 red; 1 green, 1 blue
Game 3: 8 green, 6 blue, 20 red; 5 blue, 4 red, 13 green; 5 green, 1 red
Game 4: 1 green, 3 red, 6 blue; 3 green, 6 red; 3 green, 15 blue, 14 red
Game 5: 6 red, 1 blue, 3 green; 2 blue, 1 red, 2 green
"
    .trim();
    assert_eq!(day2::part1(inp), 8);
    assert_eq!(day2::part2(inp), 2286);
}

#[test]
fn repeated_colours_in_a_handful_add_up() {
    assert_eq!(day2::part1("Game 7: 7 red, 6 red"), 0);
    assert_eq!(day2::part1("Game 7: 7 red; 6 red"), 7);
    assert_eq!(day2::part2("Game 7: 2 red, 3 green, 1 red; 4 blue"), 36);
}

#[test]
fn p6t() {
    let example = "Time:      7  15   30
Distance:  9  40  200"
        .trim();

    assert_eq!(day6::part1(example), 288);
    assert_eq!(day6::part2(example), 71503);
}

#[test]
fn race_with_even_and_odd_times() {
    assert_eq!(day6::part2("Time: 8\nDistance: 11"), 5);
    assert_eq!(day6::part2("Time: 7\nDistance: 9"), 4);
    assert_eq!(day6::part1("Time: 0 3\nDistance: 5 1"), 0);
}

#[test]
fn p14t() {
    let example = "O....#....
O.OO#....#
.....##...
OO.#O....O
.O.....O#.
O.#..O.#.#
..O..#O..O
.......O..
#....###..
#OO..#....";
    assert_eq!(day14::part1(example), 136);
}

#[test]
fn rocks_stop_under_cubes() {
    assert_eq!(day14::part1("#.\n.O\nO."), 3 + 2);
}

const MIRRORS: &str = "#.##..##.
..#.##.#.
##......#
##......#
..#.##.#.
..##..##.
#.#.##.#.

#...##..#
#....#..#
..##..###
#####.##.
#####.##.
..##..###
#....#..#";

#[test]
fn p13t() {
    assert_eq!(day13::part1(MIRRORS.trim()), 405);
    assert_eq!(day13::part2(MIRRORS.trim()), 400);
}

#[test]
fn mirror_in_the_middle_counts_from_both_sides() {
    assert_eq!(day13::part1("ab\nab"), 100 + 100);
    assert_eq!(day13::part1("aa\nbb"), 1 + 1);
    assert_eq!(day13::part1("ab\ncd\ncd\nab"), 200 + 200);
}

#[test]
fn p10t() {
    assert!(Edge::connects_to(
        Direction::Bottom,
        &Edge::of(b'J'),
        &Edge::of(b'F')
    ));
    assert!(!Edge::connects_to(
        Direction::Top,
        &Edge::of(b'J'),
        &Edge::of(b'F')
    ));
}

#[test]
fn pipe_edges_mirror() {
    assert!(Edge::horizontal_symmetric(&Edge::of(b'7'), &Edge::of(b'F')));
    assert!(Edge::horizontal_symmetric(&Edge::of(b'J'), &Edge::of(b'L')));
    assert!(!Edge::horizontal_symmetric(&Edge::of(b'7'), &Edge::of(b'L')));
    assert_eq!(Edge::Left.invert_horizontal(), Edge::Right);
    assert_eq!(Edge::Top.invert_horizontal(), Edge::Top);
    assert_eq!(Edge::of(b'S').len(), 4);
    assert!(Edge::of(b'.').is_empty());
}

#[test]
fn p12t() {
    let example = "???.### 1,1,3
.??..??...?##. 1,1,3
?#?#?#?#?#?#?#? 1,3,1,6
????.#...#... 4,1,1
????.######..#####. 1,6,5
?###???????? 3,2,1";
    assert_eq!(day12::part1(example), 21);
}

#[test]
fn arrangements_of_single_records() {
    assert_eq!(day12::part1("?###???????? 3,2,1"), 10);
    assert_eq!(day12::part1("# 1"), 1);
    assert_eq!(day12::part1("#.# 1"), 0);
    assert_eq!(day12::part1("?? 3"), 0);
}

#[test]
fn p7t() {
    let example = "32T3K 765
T55J5 684
KK677 28
KTJJT 220
QQQJA 483"
        .trim();

    assert_eq!(day7::part1(example), 6440);
    assert_eq!(day7::part2(example), 5905);
}

#[test]
fn card_orders() {
    assert_eq!(Card(b'7').to_index(), 7);
    assert_eq!(Card(b'A').to_index(), 10);
    assert_eq!(Card(b'T').to_index(), 14);
    assert_eq!(CardOrdPart1(Card(b'T')).cmp(&CardOrdPart1(Card(b'9'))), Ordering::Greater);
    assert_eq!(CardOrdPart1(Card(b'J')).cmp(&CardOrdPart1(Card(b'Q'))), Ordering::Less);
    assert_eq!(CardOrdPart1(Card(b'A')).cmp(&CardOrdPart1(Card(b'A'))), Ordering::Equal);
    assert_eq!(CardOrdPart2(Card(b'J')).cmp(&CardOrdPart2(Card(b'2'))), Ordering::Less);
    assert_eq!(CardOrdPart2(Card(b'K')).cmp(&CardOrdPart2(Card(b'A'))), Ordering::Less);
}

#[test]
fn equal_hands_rank_in_input_order() {
    assert_eq!(day7::part1("AAAAA 1\nAAAAA 2"), 1 + 2 * 2);
    assert_eq!(day7::part2("JJJJJ 3\n22223 1"), 3 * 2 + 1);
}

#[test]
fn p3t() {
    let inp = "467..114..
...*......
..35..633.
......#...
617*......
.....+.58.
..592.....
......755.
...$.*....
.664.598..
"
    .trim();
    assert_eq!(day3::part1(inp), 4361);
    assert_eq!(day3::part2(inp), 467835);
}

#[test]
fn numbers_touching_symbols_diagonally() {
    assert_eq!(day3::part1("12.\n..#"), 12);
    assert_eq!(day3::part1("12..\n...#"), 0);
    assert_eq!(day3::part2("2*3\n..."), 6);
    assert_eq!(day3::part2("2*3\n.4."), 0);
}

#[test]
fn p5t() {
    let example = "seeds: 79 14 55 13

seed-to-soil map:
50 98 2
52 50 48

soil-to-fertilizer map:
0 15 37
37 52 2
39 0 15

fertilizer-to-water map:
49 53 8
0 11 42
42 0 7
57 7 4

water-to-light map:
88 18 7
18 25 70

light-to-temperature map:
45 77 23
81 45 19
68 64 13

temperature-to-humidity map:
0 69 1
1 0 69

humidity-to-location map:
60 56 37
56 93 4"
        .trim();

    assert_eq!(day5::part1(example), 35);
}

#[test]
fn unmapped_seeds_keep_their_number() {
    let almanac = "seeds: 5 100\n\na:\n\nb:\n\nc:\n\nd:\n\ne:\n\nf:\n\ng:\n1000 100 1";
    assert_eq!(day5::part1(almanac), 5);
    let shifted = "seeds: 7\n\na:\n0 5 3\n\nb:\n\nc:\n\nd:\n\ne:\n\nf:\n\ng:";
    assert_eq!(day5::part1(shifted), 2);
}

#[test]
fn path_follows_parent_links() {
    let paths = vec![
        (None, Position { y: 0, x: 0 }),
        (Some(0), Position { y: 0, x: 1 }),
        (Some(0), Position { y: 1, x: 0 }),
        (Some(1), Position { y: 1, x: 1 }),
    ];
    assert_eq!(
        reconstruct_path(3, &paths),
        vec![Position { y: 1, x: 1 }, Position { y: 0, x: 1 }, Position { y: 0, x: 0 }]
    );
    assert_eq!(reconstruct_path(0, &paths), vec![Position { y: 0, x: 0 }]);
}
