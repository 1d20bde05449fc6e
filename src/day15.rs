//! Hashing comma-separated initialisation steps, and the lens boxes they fill.

use crate::text::copy_range;
use crate::text::first_index_of;
use crate::text::is_signed_number;
use crate::text::lemma_pieces_count;
use crate::text::parse_signed;
use crate::text::signed_value;
use crate::text::split_once_byte;
use crate::text::MAX_INPUT;
use crate::text::pieces;
use crate::text::split_on;
use crate::text::views;
use vstd::prelude::*;
use vstd::string::StringSliceAdditionalSpecFns;

verus! {

/// The step separator.
pub const COMMA: u8 = 44;

/// The hash of `s`: for each byte, add it, multiply by 17, keep the remainder
/// modulo 256.
pub open spec fn hash_of(s: Seq<u8>) -> int
    decreases s.len(),
{
    if s.len() == 0 {
        0
    } else {
        ((hash_of(s.drop_last()) + s.last() as int) * 17) % 256
    }
}

/// The sum of the hashes of the steps.
pub open spec fn sum_of_hashes(steps: Seq<Seq<u8>>) -> int
    decreases steps.len(),
{
    if steps.len() == 0 {
        0
    } else {
        sum_of_hashes(steps.drop_last()) + hash_of(steps.last())
    }
}

/// A hash is below 256.
proof fn lemma_hash_range(s: Seq<u8>)
    ensures
        0 <= hash_of(s) < 256,
    decreases s.len(),
{
    if s.len() > 0 {
        lemma_hash_range(s.drop_last());
    }
}

/// The sum of `n` hashes is at most `255 * n`.
proof fn lemma_sum_of_hashes_range(steps: Seq<Seq<u8>>)
    ensures
        0 <= sum_of_hashes(steps) <= 255 * steps.len(),
    decreases steps.len(),
{
    if steps.len() > 0 {
        lemma_sum_of_hashes_range(steps.drop_last());
        lemma_hash_range(steps.last());
    }
}

/// The hash of a step.
pub fn hash(s: &[u8]) -> (h: i64)
    ensures
        h == hash_of(s@),
{
    let mut h: i64 = 0;
    let mut i: usize = 0;
    while i < s.len()
        invariant
            i <= s@.len(),
            h == hash_of(s@.subrange(0, i as int)),
            0 <= h < 256,
        decreases s@.len() - i,
    {
        proof {
            assert(s@.subrange(0, i + 1).drop_last() =~= s@.subrange(0, i as int));
        }
        h = ((h + s[i] as i64) * 17) % 256;
        i = i + 1;
    }
    proof {
        assert(s@.subrange(0, s@.len() as int) =~= s@);
    }
    h
}

/// The sum of the hashes of the comma-separated steps of `input`.
pub fn part1(input: &str) -> (r: i64)
    requires
        input.spec_bytes().len() <= MAX_INPUT,
    ensures
        r == sum_of_hashes(pieces(input.spec_bytes(), COMMA)),
{
    let steps = split_on(input.as_bytes(), COMMA);
    let ghost all = pieces(input.spec_bytes(), COMMA);
    proof {
        lemma_pieces_count(input.spec_bytes(), COMMA);
        assert(views(steps@).len() == steps@.len());
    }
    let mut sum: i64 = 0;
    let mut i: usize = 0;
    while i < steps.len()
        invariant
            i <= steps@.len(),
            views(steps@) == all,
            all.len() <= MAX_INPUT + 1,
            sum == sum_of_hashes(all.subrange(0, i as int)),
        decreases steps@.len() - i,
    {
        let h = hash(steps[i].as_slice());
        proof {
            assert(all.subrange(0, i + 1).drop_last() =~= all.subrange(0, i as int));
            assert(all[i as int] == steps@[i as int]@);
            lemma_sum_of_hashes_range(all.subrange(0, i as int));
            lemma_hash_range(all[i as int]);
        }
        sum = sum + h;
        i = i + 1;
    }
    proof {
        assert(all.subrange(0, all.len() as int) =~= all);
    }
    sum
}

/// The byte that separates a label from its focal length.
pub const EQUALS: u8 = 61;

/// The byte that ends a removal step.
pub const DASH: u8 = 45;

/// The number of boxes.
pub const BOXES: usize = 256;

/// The lenses of a box: a label and a focal length each, front first.
pub type LensBox = Seq<(Seq<u8>, int)>;

/// The slot of the first lens labelled `key` at or after slot `i`, or -1.
pub open spec fn slot_from(b: LensBox, key: Seq<u8>, i: int) -> int
    decreases b.len() - i,
{
    if i < 0 || i >= b.len() {
        -1
    } else if b[i].0 == key {
        i
    } else {
        slot_from(b, key, i + 1)
    }
}

/// The label of an insertion step `label=length`.
pub open spec fn insert_label(step: Seq<u8>) -> Seq<u8> {
    step.subrange(0, first_index_of(step, EQUALS))
}

/// The focal length of an insertion step `label=length`.
pub open spec fn insert_length(step: Seq<u8>) -> Seq<u8> {
    step.subrange(first_index_of(step, EQUALS) + 1, step.len() as int)
}

/// A step is an insertion `label=length`, a removal `label-`, or neither.
pub open spec fn step_ok(step: Seq<u8>) -> bool {
    first_index_of(step, EQUALS) >= 0 ==> is_signed_number(insert_length(step))
}

/// The boxes after one step. `label=length` puts the lens in the box that
/// the label hashes to, in place of the lens of that label if there is one
/// and at the back otherwise; `label-` takes the lens of that label out of
/// its box; any other step changes nothing.
pub open spec fn apply_step(boxes: Seq<LensBox>, step: Seq<u8>) -> Seq<LensBox> {
    if first_index_of(step, EQUALS) >= 0 {
        let key = insert_label(step);
        let lens = (key, signed_value(insert_length(step)));
        let h = hash_of(key);
        let b = boxes[h];
        let i = slot_from(b, key, 0);
        boxes.update(h, if i >= 0 { b.update(i, lens) } else { b.push(lens) })
    } else if step.len() > 0 && step.last() == DASH {
        let key = step.drop_last();
        let h = hash_of(key);
        let b = boxes[h];
        let i = slot_from(b, key, 0);
        if i >= 0 {
            boxes.update(h, b.remove(i))
        } else {
            boxes
        }
    } else {
        boxes
    }
}

/// The boxes after the first `n` steps, starting from 256 empty boxes.
pub open spec fn boxes_after(steps: Seq<Seq<u8>>, n: int) -> Seq<LensBox>
    decreases n,
{
    if n <= 0 {
        Seq::new(BOXES as nat, |i: int| Seq::empty())
    } else {
        apply_step(boxes_after(steps, n - 1), steps[n - 1])
    }
}

/// The focusing power of the first `n` lenses of box `b`: the box number
/// plus one, times the slot plus one, times the focal length, added up.
pub open spec fn lens_power(lenses: LensBox, b: int, n: int) -> int
    decreases n,
{
    if n <= 0 {
        0
    } else {
        lens_power(lenses, b, n - 1) + (b + 1) * n * lenses[n - 1].1
    }
}

/// The focusing power of the first `m` boxes.
pub open spec fn boxes_power(boxes: Seq<LensBox>, m: int) -> int
    decreases m,
{
    if m <= 0 {
        0
    } else {
        boxes_power(boxes, m - 1) + lens_power(boxes[m - 1], m - 1, boxes[m - 1].len() as int)
    }
}

/// Every running sum and term of the focusing power fits in an `i64`.
pub open spec fn power_fits(boxes: Seq<LensBox>) -> bool {
    forall|m: int, n: int|
        0 <= m < boxes.len() && 0 <= n < boxes[m].len() ==> {
            &&& (m + 1) * (n + 1) <= i64::MAX
            &&& i64::MIN <= (m + 1) * (n + 1) * (#[trigger] boxes[m][n]).1 <= i64::MAX
            &&& i64::MIN <= boxes_power(boxes, m) + lens_power(boxes[m], m, n + 1) <= i64::MAX
        }
}

/// The view of the lenses of a box.
pub open spec fn lens_view(b: Seq<(Vec<u8>, i64)>) -> LensBox {
    b.map_values(|l: (Vec<u8>, i64)| (l.0@, l.1 as int))
}

/// The view of all boxes.
pub open spec fn boxes_view(v: Seq<Vec<(Vec<u8>, i64)>>) -> Seq<LensBox> {
    v.map_values(|b: Vec<(Vec<u8>, i64)>| lens_view(b@))
}

/// Boxes stay 256 in number.
proof fn lemma_boxes_count(steps: Seq<Seq<u8>>, n: int)
    ensures
        boxes_after(steps, n).len() == BOXES,
    decreases n,
{
    if n > 0 {
        lemma_boxes_count(steps, n - 1);
        let boxes = boxes_after(steps, n - 1);
        let step = steps[n - 1];
        if first_index_of(step, EQUALS) >= 0 {
            lemma_hash_range(insert_label(step));
        } else if step.len() > 0 && step.last() == DASH {
            lemma_hash_range(step.drop_last());
        }
    }
}

/// Whether two byte strings are equal.
fn same_bytes(a: &[u8], b: &[u8]) -> (r: bool)
    ensures
        r == (a@ == b@),
{
    if a.len() != b.len() {
        return false;
    }
    let mut i: usize = 0;
    while i < a.len()
        invariant
            i <= a@.len(),
            a@.len() == b@.len(),
            forall|k: int| 0 <= k < i ==> a@[k] == b@[k],
        decreases a@.len() - i,
    {
        if a[i] != b[i] {
            return false;
        }
        i = i + 1;
    }
    proof {
        assert(a@ =~= b@);
    }
    true
}

/// The slot of the lens labelled `key`, or -1.
fn find_slot(bucket: &Vec<(Vec<u8>, i64)>, key: &[u8]) -> (r: Option<usize>)
    ensures
        match r {
            Some(i) => i < bucket@.len() && i == slot_from(lens_view(bucket@), key@, 0),
            None => slot_from(lens_view(bucket@), key@, 0) == -1,
        },
{
    let ghost lv = lens_view(bucket@);
    let mut i: usize = 0;
    while i < bucket.len()
        invariant
            i <= bucket@.len(),
            lv == lens_view(bucket@),
            slot_from(lv, key@, 0) == slot_from(lv, key@, i as int),
        decreases bucket@.len() - i,
    {
        proof {
            assert(lv[i as int].0 == bucket@[i as int].0@);
        }
        if same_bytes(bucket[i].0.as_slice(), key) {
            return Some(i);
        }
        i = i + 1;
    }
    None
}

/// Applies one step to the box it concerns.
fn apply(boxes: &mut Vec<Vec<(Vec<u8>, i64)>>, step: &[u8])
    requires
        old(boxes)@.len() == BOXES,
        step_ok(step@),
    ensures
        final(boxes)@.len() == BOXES,
        boxes_view(final(boxes)@) == apply_step(boxes_view(old(boxes)@), step@),
{
    let ghost before = boxes_view(boxes@);
    let n = step.len();
    match split_once_byte(step, EQUALS) {
        Some((key, value)) => {
            let v = parse_signed(value.as_slice());
            let h = hash(key.as_slice());
            proof {
                lemma_hash_range(key@);
                assert(before[h as int] == lens_view(boxes@[h as int]@));
            }
            let slot = find_slot(&boxes[h as usize], key.as_slice());
            let ghost keyv = key@;
            let ghost b = before[h as int];
            let bucket = &mut boxes[h as usize];
            match slot {
                Some(i) => {
                    bucket.set(i, (key, v));
                },
                None => {
                    bucket.push((key, v));
                },
            }
            proof {
                let lens = (keyv, v as int);
                assert(keyv == insert_label(step@));
                assert(value@ == insert_length(step@));
                let nb = if slot_from(b, keyv, 0) >= 0 {
                    b.update(slot_from(b, keyv, 0), lens)
                } else {
                    b.push(lens)
                };
                assert(apply_step(before, step@) == before.update(h as int, nb));
                assert(lens_view(boxes@[h as int]@) =~= nb);
                assert(boxes_view(boxes@) =~= before.update(h as int, nb));
            }
        },
        None => {
            if n > 0 && step[n - 1] == DASH {
                let key = copy_range(step, 0, n - 1);
                let h = hash(key.as_slice());
                proof {
                    lemma_hash_range(key@);
                    assert(key@ =~= step@.drop_last());
                    assert(before[h as int] == lens_view(boxes@[h as int]@));
                }
                let slot = find_slot(&boxes[h as usize], key.as_slice());
                let ghost b = before[h as int];
                match slot {
                    Some(i) => {
                        let bucket = &mut boxes[h as usize];
                        bucket.remove(i);
                        proof {
                            assert(lens_view(boxes@[h as int]@) =~= b.remove(i as int));
                            assert(boxes_view(boxes@) =~= apply_step(before, step@));
                        }
                    },
                    None => {
                    },
                }
            }
        },
    }
}

/// The focusing power of the lenses once every comma-separated step of
/// `input` has been applied to 256 empty boxes.
pub fn part2(input: &str) -> (r: i64)
    requires
        forall|k: int|
            0 <= k < pieces(input.spec_bytes(), COMMA).len() ==> step_ok(
                #[trigger] pieces(input.spec_bytes(), COMMA)[k],
            ),
        power_fits(
            boxes_after(pieces(input.spec_bytes(), COMMA), pieces(input.spec_bytes(), COMMA).len() as int),
        ),
    ensures
        r == ({
            let steps = pieces(input.spec_bytes(), COMMA);
            let fin = boxes_after(steps, steps.len() as int);
            boxes_power(fin, BOXES as int)
        }),
{
    let steps = split_on(input.as_bytes(), COMMA);
    let ghost all = pieces(input.spec_bytes(), COMMA);
    proof {
        assert(views(steps@).len() == steps@.len());
    }
    let mut boxes: Vec<Vec<(Vec<u8>, i64)>> = Vec::new();
    let mut k: usize = 0;
    while k < BOXES
        invariant
            k <= BOXES,
            boxes@.len() == k,
            forall|t: int| 0 <= t < k ==> (#[trigger] boxes@[t])@.len() == 0,
        decreases BOXES - k,
    {
        boxes.push(Vec::new());
        k = k + 1;
    }
    proof {
        assert forall|t: int| 0 <= t < BOXES implies #[trigger] boxes_view(boxes@)[t] == boxes_after(all, 0)[t] by {
            assert(lens_view(boxes@[t]@) =~= Seq::empty());
        }
        assert(boxes_view(boxes@) =~= boxes_after(all, 0));
    }
    let mut i: usize = 0;
    while i < steps.len()
        invariant
            i <= steps@.len(),
            views(steps@) == all,
            forall|k: int| 0 <= k < all.len() ==> step_ok(#[trigger] all[k]),
            boxes@.len() == BOXES,
            boxes_view(boxes@) == boxes_after(all, i as int),
        decreases steps@.len() - i,
    {
        proof {
            assert(all[i as int] == steps@[i as int]@);
            assert(step_ok(all[i as int]));
        }
        apply(&mut boxes, steps[i].as_slice());
        i = i + 1;
    }
    let ghost fin = boxes_after(all, all.len() as int);
    let mut sum: i64 = 0;
    let mut b: usize = 0;
    while b < BOXES
        invariant
            b <= BOXES,
            boxes@.len() == BOXES,
            boxes_view(boxes@) == fin,
            fin.len() == BOXES,
            power_fits(fin),
            sum == boxes_power(fin, b as int),
        decreases BOXES - b,
    {
        let ghost lenses = fin[b as int];
        proof {
            assert(lenses == lens_view(boxes@[b as int]@));
        }
        let mut slot: usize = 0;
        while slot < boxes[b].len()
            invariant
                b < BOXES,
                boxes@.len() == BOXES,
                boxes_view(boxes@) == fin,
                fin.len() == BOXES,
                power_fits(fin),
                lenses == fin[b as int],
                lenses == lens_view(boxes@[b as int]@),
                slot <= lenses.len(),
                sum == boxes_power(fin, b as int) + lens_power(lenses, b as int, slot as int),
            decreases lenses.len() - slot,
        {
            let v = boxes[b][slot].1;
            proof {
                assert(lenses[slot as int].1 == v);
                assert(i64::MIN <= (b + 1) * (slot + 1) * fin[b as int][slot as int].1 <= i64::MAX);
                assert((b + 1) * (slot + 1) <= i64::MAX);
                assert(slot + 1 <= (b + 1) * (slot + 1)) by (nonlinear_arith)
                    requires
                        b >= 0,
                        slot >= 0,
                ;
            }
            sum = sum + (b + 1) as i64 * (slot + 1) as i64 * v;
            slot = slot + 1;
        }
        b = b + 1;
    }
    sum
}

} // verus!
