//! Inclusive ranges of part ratings, one per rating category.

use vstd::prelude::*;
use vstd::string::StringSliceAdditionalSpecFns;

verus! {

/// An inclusive range `min..=max`.
#[derive(Clone, Copy, Debug)]
pub struct IRange<I> {
    pub min: I,
    pub max: I,
}

impl IRange<i32> {
    /// The number of values from `min` through `max`.
    pub fn values_contained(self) -> (r: i32)
        requires
            self.max < i32::MAX,
            i32::MIN <= self.max + 1 - self.min <= i32::MAX,
        ensures
            r == self.max + 1 - self.min,
    {
        (self.max + 1) - self.min
    }
}

/// The ranges of the four rating categories `x`, `m`, `a` and `s`.
#[derive(Clone, Copy, Debug)]
pub struct Costs {
    pub x: IRange<i32>,
    pub m: IRange<i32>,
    pub a: IRange<i32>,
    pub s: IRange<i32>,
}

/// The category that a one-letter name stands for: 0 for `x`, 1 for `m`,
/// 2 for `a`, 3 for `s`, and -1 for any other name.
pub open spec fn category(name: Seq<u8>) -> int {
    if name.len() != 1 {
        -1
    } else if name[0] == 120 {
        0
    } else if name[0] == 109 {
        1
    } else if name[0] == 97 {
        2
    } else if name[0] == 115 {
        3
    } else {
        -1
    }
}

impl Costs {
    /// The range of category `c`.
    pub open spec fn range_of(self, c: int) -> IRange<i32> {
        if c == 0 {
            self.x
        } else if c == 1 {
            self.m
        } else if c == 2 {
            self.a
        } else {
            self.s
        }
    }

    /// `self` with the range of category `c` replaced by `r`.
    pub open spec fn with_range(self, c: int, r: IRange<i32>) -> Costs {
        if c == 0 {
            Costs { x: r, ..self }
        } else if c == 1 {
            Costs { m: r, ..self }
        } else if c == 2 {
            Costs { a: r, ..self }
        } else {
            Costs { s: r, ..self }
        }
    }

    /// The range of the category named `s`, to be changed in place.
    pub fn range_mut(&mut self, s: &str) -> (r: &mut IRange<i32>)
        requires
            category(s.spec_bytes()) >= 0,
        ensures
            *r == old(self).range_of(category(s.spec_bytes())),
            *final(self) == old(self).with_range(category(s.spec_bytes()), *final(r)),
    {
        let b = s.as_bytes();
        if b[0] == 120 {
            &mut self.x
        } else if b[0] == 109 {
            &mut self.m
        } else if b[0] == 97 {
            &mut self.a
        } else {
            &mut self.s
        }
    }
}

} // verus!
