use vstd::prelude::*;
use crate::bag::{count, max_nat, min_nat, Bag};
use crate::logic::YesNoMaybe;

verus! {

/// Whether every value occurs in `b` at least as often as in `a`.
pub open spec fn sub_bag(a: Seq<i32>, b: Seq<i32>) -> bool {
    forall|x: i32| count(a, x) <= count(b, x)
}

/// What a group of positions could hold: at least the values of `min`, at most those of `max`.
#[derive(Debug, Clone, PartialEq, Eq)]
pub struct BagRange {
    pub min: Bag,
    pub max: Bag,
}

pub open spec fn range_and(a: BagRange, b: BagRange, r: BagRange) -> bool {
    &&& forall|x: i32| count(r.min.0@, x) == count(a.min.0@, x) + count(b.min.0@, x)
    &&& forall|x: i32| count(r.max.0@, x) == count(a.max.0@, x) + count(b.max.0@, x)
}

pub open spec fn range_or(a: BagRange, b: BagRange, r: BagRange) -> bool {
    &&& forall|x: i32| count(r.min.0@, x) == min_nat(count(a.min.0@, x), count(b.min.0@, x))
    &&& forall|x: i32| count(r.max.0@, x) == max_nat(count(a.max.0@, x), count(b.max.0@, x))
}

pub open spec fn range_equal(r: BagRange, target: Seq<i32>) -> YesNoMaybe {
    if sub_bag(r.min.0@, target) && sub_bag(target, r.max.0@) {
        if sub_bag(r.max.0@, r.min.0@) { YesNoMaybe::Yes } else { YesNoMaybe::Maybe }
    } else {
        YesNoMaybe::No
    }
}

pub open spec fn range_subset(r: BagRange, target: Seq<i32>) -> YesNoMaybe {
    if sub_bag(r.max.0@, target) {
        YesNoMaybe::Yes
    } else if sub_bag(r.min.0@, target) {
        YesNoMaybe::Maybe
    } else {
        YesNoMaybe::No
    }
}

pub open spec fn range_superset(r: BagRange, target: Seq<i32>) -> YesNoMaybe {
    if sub_bag(target, r.min.0@) {
        YesNoMaybe::Yes
    } else if sub_bag(target, r.max.0@) {
        YesNoMaybe::Maybe
    } else {
        YesNoMaybe::No
    }
}

impl BagRange {
    pub open spec fn wf(&self) -> bool {
        self.min.wf() && self.max.wf()
    }

    pub fn singleton(elem: i32) -> (r: BagRange)
        ensures
            r.wf(),
            r.min.0@ == seq![elem],
            r.max.0@ == seq![elem],
    {
        BagRange { min: Bag::singleton(elem), max: Bag::singleton(elem) }
    }

    pub fn and(self, other: BagRange) -> (r: BagRange)
        requires
            self.wf(),
            other.wf(),
        ensures
            r.wf(),
            range_and(self, other, r),
    {
        let (a, b) = (self, other);
        let ghost (ga, gb) = (a, b);
        let min = a.min.sum(b.min);
        let max = a.max.sum(b.max);
        let r = BagRange { min, max };
        assert(range_and(ga, gb, r));
        r
    }

    pub fn or(self, other: BagRange) -> (r: BagRange)
        requires
            self.wf(),
            other.wf(),
        ensures
            r.wf(),
            range_or(self, other, r),
    {
        let (a, b) = (self, other);
        let ghost (ga, gb) = (a, b);
        let min = a.min.intersection(b.min);
        let max = a.max.union(b.max);
        let r = BagRange { min, max };
        assert(range_or(ga, gb, r));
        r
    }

    pub fn is_equal(&self, other: &Bag) -> (r: YesNoMaybe)
        ensures
            r == range_equal(*self, other.0@),
    {
        if self.min.is_subset(other) && other.is_subset(&self.max) {
            if self.max.is_subset(&self.min) {
                YesNoMaybe::Yes
            } else {
                YesNoMaybe::Maybe
            }
        } else {
            YesNoMaybe::No
        }
    }

    pub fn is_subset(&self, other: &Bag) -> (r: YesNoMaybe)
        ensures
            r == range_subset(*self, other.0@),
    {
        if self.max.is_subset(other) {
            YesNoMaybe::Yes
        } else if self.min.is_subset(other) {
            YesNoMaybe::Maybe
        } else {
            YesNoMaybe::No
        }
    }

    pub fn is_superset(&self, other: &Bag) -> (r: YesNoMaybe)
        ensures
            r == range_superset(*self, other.0@),
    {
        if other.is_subset(&self.min) {
            YesNoMaybe::Yes
        } else if other.is_subset(&self.max) {
            YesNoMaybe::Maybe
        } else {
            YesNoMaybe::No
        }
    }
}

/// The constraint that the values at its positions form a sub-multiset of a given bag.
#[derive(Debug, Clone)]
pub struct Subset(pub Bag);

impl Subset {
    pub fn new(set: Vec<i32>) -> (r: Subset)
        ensures
            r.0.wf(),
            forall|x: i32| count(r.0.0@, x) == count(set@, x),
    {
        Subset(Bag::new(set))
    }

    pub fn check(&self, range: &BagRange) -> (r: YesNoMaybe)
        ensures
            r == range_subset(*range, self.0.0@),
    {
        range.is_subset(&self.0)
    }
}

/// The constraint that the values at its positions include a given bag.
#[derive(Debug, Clone)]
pub struct Superset(pub Bag);

impl Superset {
    pub fn new(set: Vec<i32>) -> (r: Superset)
        ensures
            r.0.wf(),
            forall|x: i32| count(r.0.0@, x) == count(set@, x),
    {
        Superset(Bag::new(set))
    }

    pub fn check(&self, range: &BagRange) -> (r: YesNoMaybe)
        ensures
            r == range_superset(*range, self.0.0@),
    {
        range.is_superset(&self.0)
    }
}

/// The constraint that the values at its positions include `min` and lie within `max`.
#[derive(Debug, Clone)]
pub struct SubsetAndSuperset {
    pub min: Bag,
    pub max: Bag,
}

impl SubsetAndSuperset {
    pub fn new(min: Vec<i32>, max: Vec<i32>) -> (r: SubsetAndSuperset)
        ensures
            r.min.wf(),
            r.max.wf(),
            forall|x: i32| count(r.min.0@, x) == count(min@, x),
            forall|x: i32| count(r.max.0@, x) == count(max@, x),
    {
        SubsetAndSuperset { min: Bag::new(min), max: Bag::new(max) }
    }

    pub fn check(&self, range: &BagRange) -> (r: YesNoMaybe)
        ensures
            r == crate::logic::and_spec(range_subset(*range, self.max.0@), range_superset(*range, self.min.0@)),
    {
        range.is_subset(&self.max).and(range.is_superset(&self.min))
    }
}

/// The constraint that the values at its positions are, in some order, exactly a given bag.
#[derive(Debug, Clone)]
pub struct Permutation {
    pub expected: Bag,
}

impl Permutation {
    pub fn new(expected: Vec<i32>) -> (r: Permutation)
        ensures
            r.expected.wf(),
            forall|x: i32| count(r.expected.0@, x) == count(expected@, x),
    {
        Permutation { expected: Bag::new(expected) }
    }

    pub fn check(&self, range: &BagRange) -> (r: YesNoMaybe)
        ensures
            r == range_equal(*range, self.expected.0@),
    {
        range.is_equal(&self.expected)
    }
}

} // verus!
