use vstd::prelude::*;
use crate::logic::YesNoMaybe;

verus! {

/// The range `[min, max]` that a sum or a product over some positions can take.
#[derive(Debug, Clone, Copy, PartialEq, Eq, Structural)]
pub struct Interval {
    pub min: i64,
    pub max: i64,
}

/// Clamps a mathematical integer into the range of `i64`.
pub open spec fn sat(x: int) -> int {
    if x < i64::MIN {
        i64::MIN as int
    } else if x > i64::MAX {
        i64::MAX as int
    } else {
        x
    }
}

pub open spec fn fits(x: int) -> bool {
    i64::MIN <= x <= i64::MAX
}

pub open spec fn min_int(a: int, b: int) -> int {
    if a <= b { a } else { b }
}

pub open spec fn max_int(a: int, b: int) -> int {
    if a >= b { a } else { b }
}

/// Alternatives: the smallest lower bound and the largest upper bound.
pub open spec fn interval_or(a: Interval, b: Interval) -> Interval {
    Interval { min: min_int(a.min as int, b.min as int) as i64, max: max_int(a.max as int, b.max as int) as i64 }
}

/// Disjoint groups of a sum: bounds add (clamped to `i64`).
pub open spec fn sum_and(a: Interval, b: Interval) -> Interval {
    Interval { min: sat(a.min + b.min) as i64, max: sat(a.max + b.max) as i64 }
}

/// Disjoint groups of a product: bounds multiply (clamped to `i64`).
pub open spec fn prod_and(a: Interval, b: Interval) -> Interval {
    Interval { min: sat(a.min * b.min) as i64, max: sat(a.max * b.max) as i64 }
}

/// What a check of `target` against the interval `s` gives.
pub open spec fn interval_check(target: i64, s: Interval) -> YesNoMaybe {
    if s.min == target && s.max == target {
        YesNoMaybe::Yes
    } else if target < s.min || target > s.max {
        YesNoMaybe::No
    } else {
        YesNoMaybe::Maybe
    }
}

fn clamp_wide(x: i128) -> (r: i64)
    ensures
        r == sat(x as int),
{
    if x < i64::MIN as i128 {
        i64::MIN
    } else if x > i64::MAX as i128 {
        i64::MAX
    } else {
        x as i64
    }
}

fn mul_sat(a: i64, b: i64) -> (r: i64)
    ensures
        r == sat(a * b),
{
    proof {
        lemma_wide_product(a, b);
    }
    clamp_wide(a as i128 * b as i128)
}

proof fn lemma_wide_product(a: i64, b: i64)
    ensures
        i128::MIN <= (a as int) * (b as int) <= i128::MAX,
{
    assert(-0x8000_0000_0000_0000 <= a <= 0x7fff_ffff_ffff_ffff);
    assert((a as int) * (b as int) <= 0x8000_0000_0000_0000 * 0x8000_0000_0000_0000) by (nonlinear_arith)
        requires
            -0x8000_0000_0000_0000 <= a <= 0x7fff_ffff_ffff_ffff,
            -0x8000_0000_0000_0000 <= b <= 0x7fff_ffff_ffff_ffff;
    assert((a as int) * (b as int) >= -0x8000_0000_0000_0000 * 0x7fff_ffff_ffff_ffff) by (nonlinear_arith)
        requires
            -0x8000_0000_0000_0000 <= a <= 0x7fff_ffff_ffff_ffff,
            -0x8000_0000_0000_0000 <= b <= 0x7fff_ffff_ffff_ffff;
}

fn or_intervals(a: Interval, b: Interval) -> (r: Interval)
    ensures
        r == interval_or(a, b),
{
    Interval {
        min: if a.min <= b.min { a.min } else { b.min },
        max: if a.max >= b.max { a.max } else { b.max },
    }
}

fn check_interval(target: i64, s: Interval) -> (r: YesNoMaybe)
    ensures
        r == interval_check(target, s),
{
    if s.min == target && s.max == target {
        YesNoMaybe::Yes
    } else if target < s.min || target > s.max {
        YesNoMaybe::No
    } else {
        YesNoMaybe::Maybe
    }
}

/// The constraint that the values at its positions add up to `target`.
#[derive(Debug, Clone, Copy, PartialEq, Eq, Structural)]
pub struct Sum {
    pub target: i64,
}

impl Sum {
    pub fn new(target: i64) -> (r: Sum)
        ensures
            r.target == target,
    {
        Sum { target }
    }

    pub fn singleton(&self, index: usize, value: i32) -> (r: Interval)
        ensures
            r == (Interval { min: value as i64, max: value as i64 }),
    {
        Interval { min: value as i64, max: value as i64 }
    }

    pub fn and(&self, a: Interval, b: Interval) -> (r: Interval)
        ensures
            r == sum_and(a, b),
    {
        Interval { min: clamp_wide(a.min as i128 + b.min as i128), max: clamp_wide(a.max as i128 + b.max as i128) }
    }

    pub fn or(&self, a: Interval, b: Interval) -> (r: Interval)
        ensures
            r == interval_or(a, b),
    {
        or_intervals(a, b)
    }

    pub fn check(&self, s: Interval) -> (r: YesNoMaybe)
        ensures
            r == interval_check(self.target, s),
    {
        check_interval(self.target, s)
    }
}

/// The constraint that the values at its positions (taken as non-negative) multiply to `target`.
#[derive(Debug, Clone, Copy, PartialEq, Eq, Structural)]
pub struct Prod {
    pub target: i64,
}

impl Prod {
    pub fn new(target: i64) -> (r: Prod)
        ensures
            r.target == target,
    {
        Prod { target }
    }

    pub fn singleton(&self, index: usize, value: i32) -> (r: Interval)
        ensures
            r == (Interval { min: value as i64, max: value as i64 }),
    {
        Interval { min: value as i64, max: value as i64 }
    }

    pub fn and(&self, a: Interval, b: Interval) -> (r: Interval)
        ensures
            r == prod_and(a, b),
    {
        Interval { min: mul_sat(a.min, b.min), max: mul_sat(a.max, b.max) }
    }

    pub fn or(&self, a: Interval, b: Interval) -> (r: Interval)
        ensures
            r == interval_or(a, b),
    {
        or_intervals(a, b)
    }

    pub fn check(&self, s: Interval) -> (r: YesNoMaybe)
        ensures
            r == interval_check(self.target, s),
    {
        check_interval(self.target, s)
    }
}

/// Combining alternatives is commutative and associative, for sums and products alike.
pub proof fn lemma_or_commutative_associative(a: Interval, b: Interval, c: Interval)
    ensures
        interval_or(a, b) == interval_or(b, a),
        interval_or(interval_or(a, b), c) == interval_or(a, interval_or(b, c)),
{
}

/// Combining disjoint groups of a sum is commutative, and associative while no bound leaves `i64`.
pub proof fn lemma_sum_and_commutative_associative(a: Interval, b: Interval, c: Interval)
    requires
        fits(a.min + b.min),
        fits(b.min + c.min),
        fits(a.min + b.min + c.min),
        fits(a.max + b.max),
        fits(b.max + c.max),
        fits(a.max + b.max + c.max),
    ensures
        sum_and(a, b) == sum_and(b, a),
        sum_and(sum_and(a, b), c) == sum_and(a, sum_and(b, c)),
{
}

/// Combining disjoint groups of a product is commutative, and associative while no bound leaves `i64`.
pub proof fn lemma_prod_and_commutative_associative(a: Interval, b: Interval, c: Interval)
    requires
        fits(a.min * b.min),
        fits(b.min * c.min),
        fits(a.min * b.min * c.min),
        fits(a.max * b.max),
        fits(b.max * c.max),
        fits(a.max * b.max * c.max),
    ensures
        prod_and(a, b) == prod_and(b, a),
        prod_and(prod_and(a, b), c) == prod_and(a, prod_and(b, c)),
{
    assert((a.min as int) * (b.min as int) == (b.min as int) * (a.min as int)) by (nonlinear_arith);
    assert((a.max as int) * (b.max as int) == (b.max as int) * (a.max as int)) by (nonlinear_arith);
    assert((a.min as int) * (b.min as int) * (c.min as int) == (a.min as int) * ((b.min as int) * (c.min as int))) by (nonlinear_arith);
    assert((a.max as int) * (b.max as int) * (c.max as int) == (a.max as int) * ((b.max as int) * (c.max as int))) by (nonlinear_arith);
}

/// Alternatives widen soundly: a value within either interval is within their `or`.
pub proof fn lemma_or_sound(a: Interval, b: Interval, x: int)
    requires
        (a.min <= x <= a.max) || (b.min <= x <= b.max),
    ensures
        interval_or(a, b).min <= x <= interval_or(a, b).max,
{
}

/// Sums stay within the summed bounds: if `x` lies in `a` and `y` in `b`, then `x + y` lies in
/// their `and` (bounds clamp to `i64`, and the clamped range still holds every `i64` sum).
pub proof fn lemma_sum_and_sound(a: Interval, b: Interval, x: int, y: int)
    requires
        a.min <= x <= a.max,
        b.min <= y <= b.max,
        fits(x + y),
    ensures
        sum_and(a, b).min <= x + y <= sum_and(a, b).max,
{
}

/// Products of non-negative values stay within the multiplied bounds.
pub proof fn lemma_prod_and_sound(a: Interval, b: Interval, x: int, y: int)
    requires
        0 <= a.min <= x <= a.max,
        0 <= b.min <= y <= b.max,
        fits(x * y),
    ensures
        prod_and(a, b).min <= x * y <= prod_and(a, b).max,
{
    assert(a.min * b.min <= x * y) by (nonlinear_arith)
        requires 0 <= a.min <= x, 0 <= b.min <= y;
    assert(x * y <= a.max * b.max) by (nonlinear_arith)
        requires 0 <= x <= a.max, 0 <= y <= b.max;
}

/// A check never answers `Yes` for a target outside `[min, max]`, and always answers `Yes`
/// (never `No`) when the interval has collapsed onto the target.
pub proof fn lemma_check_sound(target: i64, s: Interval)
    ensures
        (target < s.min || target > s.max) ==> interval_check(target, s) == YesNoMaybe::No,
        (s.min == target && s.max == target) ==> interval_check(target, s) == YesNoMaybe::Yes,
        interval_check(target, s) == YesNoMaybe::Yes ==> s.min <= target <= s.max,
{
}

} // verus!
