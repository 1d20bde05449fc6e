//! Almanac maps: following each seed through seven maps of number ranges.

use crate::text::is_signed_number;
use crate::text::lines;
use crate::text::pair_pieces;
use crate::text::parse_signed;
use crate::text::pieces;
use crate::text::signed_value;
use crate::text::split_lines;
use crate::text::split_on;
use crate::text::split_on_pair;
use crate::text::split_words;
use crate::text::views;
use crate::text::words;
use crate::text::NEWLINE;
use crate::text::SPACE;
use vstd::prelude::*;
use vstd::string::StringSliceAdditionalSpecFns;

verus! {

/// The number of maps a seed goes through.
pub const MAPS: usize = 7;

/// The colon after the seeds' label.
pub const COLON: u8 = 58;

/// One line of a map: source values `source_range.0..=source_range.1` go to
/// `dest_range.0..=dest_range.1`, in order.
#[derive(Clone, Copy, Debug)]
pub struct ConversionSection {
    pub source_range: (i64, i64),
    pub dest_range: (i64, i64),
}

/// `x` fits in an `i64`.
pub open spec fn in_i64(x: int) -> bool {
    i64::MIN <= x <= i64::MAX
}

/// The three numbers of a map line: destination start, source start and
/// length.
pub open spec fn line_numbers(line: Seq<u8>) -> (int, int, int) {
    let w = words(line);
    (signed_value(w[0]), signed_value(w[1]), signed_value(w[2]))
}

/// A map line of three numbers whose ranges and shift fit in an `i64`.
pub open spec fn map_line_ok(line: Seq<u8>) -> bool {
    let (d, s, n) = line_numbers(line);
    &&& words(line).len() == 3
    &&& forall|k: int| 0 <= k < 3 ==> is_signed_number(#[trigger] words(line)[k])
    &&& in_i64(d + n - 1)
    &&& in_i64(s + n - 1)
    &&& in_i64(d - s)
}

/// A section as `(source start, source end, destination start, destination
/// end)`.
pub open spec fn section_of(line: Seq<u8>) -> (int, int, int, int) {
    let (d, s, n) = line_numbers(line);
    (s, s + n - 1, d, d + n - 1)
}

/// The lines of a map block after its title.
pub open spec fn map_lines(block: Seq<u8>) -> Seq<Seq<u8>> {
    if lines(block).len() == 0 {
        Seq::empty()
    } else {
        lines(block).subrange(1, lines(block).len() as int)
    }
}

/// A map block: a title line, then map lines.
pub open spec fn block_ok(block: Seq<u8>) -> bool {
    forall|k: int| 0 <= k < map_lines(block).len() ==> map_line_ok(#[trigger] map_lines(block)[k])
}

/// The sections of a map block.
pub open spec fn sections(block: Seq<u8>) -> Seq<(int, int, int, int)> {
    map_lines(block).map_values(|l: Seq<u8>| section_of(l))
}

/// Where a map sends `num`: shifted by the first section whose source range
/// holds it, from section `i` on, or left as it is.
pub open spec fn map_from(num: int, secs: Seq<(int, int, int, int)>, i: int) -> int
    decreases secs.len() - i,
{
    if i < 0 || i >= secs.len() {
        num
    } else if secs[i].0 <= num <= secs[i].1 {
        num + (secs[i].2 - secs[i].0)
    } else {
        map_from(num, secs, i + 1)
    }
}

/// Where the first `k` maps of `blocks` (the seeds' block first) send `num`.
pub open spec fn location(num: int, blocks: Seq<Seq<u8>>, k: int) -> int
    decreases k,
{
    if k <= 0 {
        num
    } else {
        map_from(location(num, blocks, k - 1), sections(blocks[k]), 0)
    }
}

/// The seeds' line with its colon read as a space.
pub open spec fn colon_as_space(s: Seq<u8>) -> Seq<u8> {
    s.map_values(|c: u8| if c == COLON { SPACE } else { c })
}

/// The pieces of the seeds' line after the label and the empty piece that
/// follows its colon.
pub open spec fn seed_words(block: Seq<u8>) -> Seq<Seq<u8>> {
    let p = pieces(colon_as_space(block), SPACE);
    if p.len() < 2 {
        Seq::empty()
    } else {
        p.subrange(2, p.len() as int)
    }
}

/// The seeds.
pub open spec fn seeds(block: Seq<u8>) -> Seq<int> {
    seed_words(block).map_values(|w: Seq<u8>| signed_value(w))
}

/// The smallest of the first `n` locations of the seeds.
pub open spec fn lowest(sd: Seq<int>, blocks: Seq<Seq<u8>>, n: int) -> int
    decreases n,
{
    if n <= 1 {
        location(sd[0], blocks, MAPS as int)
    } else {
        let m = lowest(sd, blocks, n - 1);
        let v = location(sd[n - 1], blocks, MAPS as int);
        if v < m {
            v
        } else {
            m
        }
    }
}

/// An almanac: a seeds' block of at least one number, then seven well-formed
/// map blocks, every location along the way fitting in an `i64`.
pub open spec fn almanac_ok(blocks: Seq<Seq<u8>>) -> bool {
    &&& blocks.len() >= MAPS + 1
    &&& seed_words(blocks[0]).len() >= 1
    &&& forall|k: int| 0 <= k < seed_words(blocks[0]).len() ==> is_signed_number(#[trigger] seed_words(blocks[0])[k])
    &&& forall|k: int| 1 <= k <= MAPS ==> block_ok(#[trigger] blocks[k])
    &&& forall|j: int, k: int|
        0 <= j < seeds(blocks[0]).len() && 0 <= k <= MAPS ==> in_i64(#[trigger] location(seeds(blocks[0])[j], blocks, k))
}

/// The sections of a map block: the lines after the title, each a
/// destination start, a source start and a length.
fn parse_section(s: &[u8]) -> (r: Vec<ConversionSection>)
    requires
        block_ok(s@),
    ensures
        r@.len() == sections(s@).len(),
        forall|k: int|
            0 <= k < r@.len() ==> sections(s@)[k] == ((#[trigger] r@[k]).source_range.0 as int, r@[k].source_range.1 as int,
                r@[k].dest_range.0 as int, r@[k].dest_range.1 as int),
{
    let ls = split_lines(s);
    let ghost all = lines(s@);
    let ghost ml = map_lines(s@);
    proof {
        assert(views(ls@).len() == ls@.len());
    }
    let mut out: Vec<ConversionSection> = Vec::new();
    if ls.len() == 0 {
        return out;
    }
    let mut i: usize = 1;
    while i < ls.len()
        invariant
            1 <= i <= ls@.len(),
            views(ls@) == all,
            all == lines(s@),
            ml == map_lines(s@),
            ml == all.subrange(1, all.len() as int),
            block_ok(s@),
            out@.len() == i - 1,
            forall|k: int|
                0 <= k < i - 1 ==> sections(s@)[k] == ((#[trigger] out@[k]).source_range.0 as int,
                    out@[k].source_range.1 as int, out@[k].dest_range.0 as int, out@[k].dest_range.1 as int),
        decreases ls@.len() - i,
    {
        proof {
            assert(ml[i - 1] == all[i as int]);
            assert(all[i as int] == ls@[i as int]@);
            assert(map_line_ok(ml[i - 1]));
        }
        let ws = split_words(ls[i].as_slice());
        proof {
            assert(views(ws@).len() == ws@.len());
            assert(ws@[0]@ == words(ml[i - 1])[0]);
            assert(ws@[1]@ == words(ml[i - 1])[1]);
            assert(ws@[2]@ == words(ml[i - 1])[2]);
        }
        let d = parse_signed(ws[0].as_slice());
        let src = parse_signed(ws[1].as_slice());
        let n = parse_signed(ws[2].as_slice());
        proof {
            let (ld, ls_, ln) = line_numbers(ml[i - 1]);
            assert(d == ld && src == ls_ && n == ln);
            assert(in_i64(ld + ln - 1) && in_i64(ls_ + ln - 1));
        }
        out.push(ConversionSection { source_range: (src, src + (n - 1)), dest_range: (d, d + (n - 1)) });
        i = i + 1;
    }
    out
}

/// Where a map sends `num`.
fn find_dest(num: i64, group: &Vec<ConversionSection>) -> (r: i64)
    requires
        forall|k: int| 0 <= k < group@.len() ==> in_i64((#[trigger] group@[k]).dest_range.0 - group@[k].source_range.0),
        in_i64(map_from(num as int, group@.map_values(|c: ConversionSection| (c.source_range.0 as int, c.source_range.1 as int, c.dest_range.0 as int, c.dest_range.1 as int)), 0)),
    ensures
        r == map_from(num as int, group@.map_values(|c: ConversionSection| (c.source_range.0 as int, c.source_range.1 as int, c.dest_range.0 as int, c.dest_range.1 as int)), 0),
{
    let ghost secs = group@.map_values(|c: ConversionSection| (c.source_range.0 as int, c.source_range.1 as int, c.dest_range.0 as int, c.dest_range.1 as int));
    let mut i: usize = 0;
    while i < group.len()
        invariant
            i <= group@.len(),
            secs == group@.map_values(|c: ConversionSection| (c.source_range.0 as int, c.source_range.1 as int, c.dest_range.0 as int, c.dest_range.1 as int)),
            map_from(num as int, secs, 0) == map_from(num as int, secs, i as int),
            forall|k: int| 0 <= k < group@.len() ==> in_i64((#[trigger] group@[k]).dest_range.0 - group@[k].source_range.0),
            in_i64(map_from(num as int, secs, 0)),
        decreases group@.len() - i,
    {
        let c = group[i];
        proof {
            assert(secs[i as int] == (c.source_range.0 as int, c.source_range.1 as int, c.dest_range.0 as int, c.dest_range.1 as int));
        }
        if c.source_range.0 <= num && num <= c.source_range.1 {
            return num + (c.dest_range.0 - c.source_range.0);
        }
        i = i + 1;
    }
    num
}

/// The lowest location that any seed of the almanac `input` reaches through
/// its seven maps.
pub fn part1(input: &str) -> (r: i64)
    requires
        almanac_ok(pair_pieces(input.spec_bytes(), NEWLINE, NEWLINE)),
    ensures
        r == ({
            let blocks = pair_pieces(input.spec_bytes(), NEWLINE, NEWLINE);
            lowest(seeds(blocks[0]), blocks, seeds(blocks[0]).len() as int)
        }),
{
    let blocks = split_on_pair(input.as_bytes(), NEWLINE, NEWLINE);
    let ghost bs = pair_pieces(input.spec_bytes(), NEWLINE, NEWLINE);
    proof {
        assert(views(blocks@).len() == blocks@.len());
        assert(bs[0] == blocks@[0]@);
    }
    let mut seed_line: Vec<u8> = Vec::new();
    let mut k: usize = 0;
    while k < blocks[0].len()
        invariant
            views(blocks@) == bs,
            blocks@.len() >= 1,
            k <= blocks@[0]@.len(),
            seed_line@ == colon_as_space(bs[0]).subrange(0, k as int),
        decreases blocks@[0]@.len() - k,
    {
        proof {
            assert(bs[0] == blocks@[0]@);
        }
        let c = blocks[0][k];
        seed_line.push(if c == COLON { SPACE } else { c });
        proof {
            assert(seed_line@ =~= colon_as_space(bs[0]).subrange(0, k + 1));
        }
        k = k + 1;
    }
    proof {
        assert(bs[0] == blocks@[0]@);
        assert(seed_line@ =~= colon_as_space(bs[0]));
    }
    let ws = split_on(seed_line.as_slice(), SPACE);
    proof {
        assert(views(ws@).len() == ws@.len());
    }
    let mut maps: Vec<Vec<ConversionSection>> = Vec::new();
    let mut m: usize = 1;
    while m <= MAPS
        invariant
            1 <= m <= MAPS + 1,
            views(blocks@) == bs,
            almanac_ok(bs),
            maps@.len() == m - 1,
            forall|t: int|
                0 <= t < m - 1 ==> (#[trigger] maps@[t])@.map_values(|c: ConversionSection| (c.source_range.0 as int, c.source_range.1 as int, c.dest_range.0 as int, c.dest_range.1 as int)) == sections(bs[t + 1]),
        decreases MAPS + 1 - m,
    {
        proof {
            assert(bs[m as int] == blocks@[m as int]@);
            assert(block_ok(bs[m as int]));
        }
        let group = parse_section(blocks[m].as_slice());
        proof {
            assert(group@.map_values(|c: ConversionSection| (c.source_range.0 as int, c.source_range.1 as int, c.dest_range.0 as int, c.dest_range.1 as int)) =~= sections(bs[m as int]));
        }
        maps.push(group);
        m = m + 1;
    }
    let ghost sd = seeds(bs[0]);
    let mut best: i64 = 0;
    let mut j: usize = 2;
    while j < ws.len()
        invariant
            2 <= j <= ws@.len(),
            views(ws@) == pieces(colon_as_space(bs[0]), SPACE),
            sd == seeds(bs[0]),
            almanac_ok(bs),
            maps@.len() == MAPS,
            forall|t: int|
                0 <= t < MAPS ==> (#[trigger] maps@[t])@.map_values(|c: ConversionSection| (c.source_range.0 as int, c.source_range.1 as int, c.dest_range.0 as int, c.dest_range.1 as int)) == sections(bs[t + 1]),
            j > 2 ==> best == lowest(sd, bs, j - 2),
        decreases ws@.len() - j,
    {
        proof {
            assert(seed_words(bs[0])[j - 2] == ws@[j as int]@);
            assert(is_signed_number(seed_words(bs[0])[j - 2]));
        }
        let seed = parse_signed(ws[j].as_slice());
        let mut loc = seed;
        let mut t: usize = 0;
        while t < MAPS
            invariant
                t <= MAPS,
                almanac_ok(bs),
                sd == seeds(bs[0]),
                0 <= j - 2 < sd.len(),
                seed == sd[j - 2],
                maps@.len() == MAPS,
                forall|u: int|
                    0 <= u < MAPS ==> (#[trigger] maps@[u])@.map_values(|c: ConversionSection| (c.source_range.0 as int, c.source_range.1 as int, c.dest_range.0 as int, c.dest_range.1 as int)) == sections(bs[u + 1]),
                loc == location(seed as int, bs, t as int),
            decreases MAPS - t,
        {
            proof {
                assert(block_ok(bs[t + 1]));
                assert(in_i64(location(sd[j - 2], bs, t + 1)));
                let secs = sections(bs[t + 1]);
                assert forall|k: int| 0 <= k < maps@[t as int]@.len() implies in_i64((#[trigger] maps@[t as int]@[k]).dest_range.0 - maps@[t as int]@[k].source_range.0) by {
                    assert(map_line_ok(map_lines(bs[t + 1])[k]));
                    assert(secs[k] == section_of(map_lines(bs[t + 1])[k]));
                }
            }
            loc = find_dest(loc, &maps[t]);
            t = t + 1;
        }
        if j == 2 || loc < best {
            best = loc;
        }
        j = j + 1;
    }
    best
}

} // verus!
