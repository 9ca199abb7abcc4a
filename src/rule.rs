use vstd::prelude::*;
use crate::bag::Bag;
use crate::count::{combine_spec, count_check, lookup, Count};
use crate::interval::{interval_check, interval_or, prod_and, sum_and, Interval, Prod, Sum};
use crate::logic::{and_spec, YesNoMaybe};
use crate::permutation::{
    range_and, range_equal, range_or, range_subset, range_superset, BagRange, Permutation, Subset,
    SubsetAndSuperset, Superset,
};
use crate::pred::{all_known, known_values, pred_and, pred_or, pred_singleton, Pred};
use crate::sequence::{bits_of, ones, sat_u128, AllowedSeq, SeqSet};

verus! {

/// One constraint instance, of any of the kinds the solver knows.
pub enum Rule<F: Fn(&[i32]) -> bool> {
    Sum(Sum),
    Prod(Prod),
    Subset(Subset),
    Superset(Superset),
    SubsetAndSuperset(SubsetAndSuperset),
    Permutation(Permutation),
    Count(Count),
    Pred(Pred<F>),
    Words(AllowedSeq),
}

/// What a rule knows of a group of positions; each kind of rule has its own form.
pub enum Summary {
    Interval(Interval),
    Bags(BagRange),
    Counts(Vec<(i32, u32, u32)>),
    Slots(Vec<Option<i32>>),
    Words(SeqSet),
}

fn copy_bag(b: &Bag) -> (r: Bag)
    ensures
        r.0@ == b.0@,
{
    let mut v: Vec<i32> = Vec::new();
    let mut i: usize = 0;
    while i < b.0.len()
        invariant
            i <= b.0@.len(),
            v@ == b.0@.take(i as int),
        decreases b.0.len() - i,
    {
        v.push(b.0[i]);
        i = i + 1;
        assert(v@ =~= b.0@.take(i as int));
    }
    assert(b.0@.take(b.0@.len() as int) =~= b.0@);
    Bag(v)
}

fn copy_slots(s: &Vec<Option<i32>>) -> (r: Vec<Option<i32>>)
    ensures
        r@ == s@,
{
    let mut v: Vec<Option<i32>> = Vec::new();
    let mut i: usize = 0;
    while i < s.len()
        invariant
            i <= s@.len(),
            v@ == s@.take(i as int),
        decreases s.len() - i,
    {
        v.push(s[i]);
        i = i + 1;
        assert(v@ =~= s@.take(i as int));
    }
    assert(s@.take(s@.len() as int) =~= s@);
    v
}

fn copy_counts(s: &Vec<(i32, u32, u32)>) -> (r: Vec<(i32, u32, u32)>)
    ensures
        r@ == s@,
{
    let mut v: Vec<(i32, u32, u32)> = Vec::new();
    let mut i: usize = 0;
    while i < s.len()
        invariant
            i <= s@.len(),
            v@ == s@.take(i as int),
        decreases s.len() - i,
    {
        v.push(s[i]);
        i = i + 1;
        assert(v@ =~= s@.take(i as int));
    }
    assert(s@.take(s@.len() as int) =~= s@);
    v
}

impl Summary {
    pub fn duplicate(&self) -> (r: Summary)
        ensures
            r.same_shape(*self),
    {
        match self {
            Summary::Interval(i) => Summary::Interval(*i),
            Summary::Bags(b) => Summary::Bags(BagRange { min: copy_bag(&b.min), max: copy_bag(&b.max) }),
            Summary::Counts(c) => Summary::Counts(copy_counts(c)),
            Summary::Slots(s) => Summary::Slots(copy_slots(s)),
            Summary::Words(w) => Summary::Words(w.clone()),
        }
    }

    /// Two summaries of one kind, with the same contents as far as well-formedness goes.
    pub open spec fn same_shape(self, other: Summary) -> bool {
        match (self, other) {
            (Summary::Interval(a), Summary::Interval(b)) => a == b,
            (Summary::Bags(a), Summary::Bags(b)) => a.min.0@ == b.min.0@ && a.max.0@ == b.max.0@,
            (Summary::Counts(a), Summary::Counts(b)) => a@ == b@,
            (Summary::Slots(a), Summary::Slots(b)) => a@ == b@,
            (Summary::Words(a), Summary::Words(b)) => bits_of(a.set) == bits_of(b.set) && a.count == b.count,
            _ => false,
        }
    }
}

/// What `and` of the rule's kind gives for `a` and `b`.
pub open spec fn and_holds<F: Fn(&[i32]) -> bool>(rule: Rule<F>, a: Summary, b: Summary, r: Summary) -> bool {
    match (a, b, r) {
        (Summary::Interval(x), Summary::Interval(y), Summary::Interval(z)) => match rule {
            Rule::Sum(_) => z == sum_and(x, y),
            Rule::Prod(_) => z == prod_and(x, y),
            _ => false,
        },
        (Summary::Bags(x), Summary::Bags(y), Summary::Bags(z)) => range_and(x, y, z),
        (Summary::Counts(x), Summary::Counts(y), Summary::Counts(z)) => forall|k: i32|
            lookup(z@, k) == combine_spec(true, lookup(x@, k), lookup(y@, k)),
        (Summary::Slots(x), Summary::Slots(y), Summary::Slots(z)) => z@ == pred_and(x@, y@),
        (Summary::Words(x), Summary::Words(y), Summary::Words(z)) => bits_of(z.set) == Seq::new(
            bits_of(x.set).len(),
            |i: int| bits_of(x.set)[i] && bits_of(y.set)[i],
        ) && z.count == sat_u128(x.count * y.count),
        _ => false,
    }
}

/// What `or` of the rule's kind gives for `a` and `b`.
pub open spec fn or_holds<F: Fn(&[i32]) -> bool>(rule: Rule<F>, a: Summary, b: Summary, r: Summary) -> bool {
    match (a, b, r) {
        (Summary::Interval(x), Summary::Interval(y), Summary::Interval(z)) => z == interval_or(x, y),
        (Summary::Bags(x), Summary::Bags(y), Summary::Bags(z)) => range_or(x, y, z),
        (Summary::Counts(x), Summary::Counts(y), Summary::Counts(z)) => forall|k: i32|
            lookup(z@, k) == combine_spec(false, lookup(x@, k), lookup(y@, k)),
        (Summary::Slots(x), Summary::Slots(y), Summary::Slots(z)) => z@ == pred_or(x@, y@),
        (Summary::Words(x), Summary::Words(y), Summary::Words(z)) => bits_of(z.set) == Seq::new(
            bits_of(x.set).len(),
            |i: int| bits_of(x.set)[i] || bits_of(y.set)[i],
        ) && z.count == sat_u128(x.count + y.count),
        _ => false,
    }
}

/// What `check` of the rule gives for `s`; for a predicate with every slot known, what the
/// caller's function answers for the known values.
pub open spec fn check_holds<F: Fn(&[i32]) -> bool>(rule: Rule<F>, s: Summary, r: YesNoMaybe) -> bool {
    match (rule, s) {
        (Rule::Sum(c), Summary::Interval(x)) => r == interval_check(c.target, x),
        (Rule::Prod(c), Summary::Interval(x)) => r == interval_check(c.target, x),
        (Rule::Subset(c), Summary::Bags(x)) => r == range_subset(x, c.0.0@),
        (Rule::Superset(c), Summary::Bags(x)) => r == range_superset(x, c.0.0@),
        (Rule::SubsetAndSuperset(c), Summary::Bags(x)) => r == and_spec(range_subset(x, c.max.0@), range_superset(x, c.min.0@)),
        (Rule::Permutation(c), Summary::Bags(x)) => r == range_equal(x, c.expected.0@),
        (Rule::Count(c), Summary::Counts(x)) => r == count_check(x@, c.count_limits@),
        (Rule::Pred(p), Summary::Slots(x)) => if all_known(x@) {
            r != YesNoMaybe::Maybe && exists|v: &[i32], b: bool|
                v@ == known_values(x@) && #[trigger] p.pred.ensures((v,), b) && (b <==> r == YesNoMaybe::Yes)
        } else {
            r == YesNoMaybe::Maybe
        },
        (Rule::Words(_), Summary::Words(x)) => r == (if ones(bits_of(x.set)) == 0 {
            YesNoMaybe::No
        } else if ones(bits_of(x.set)) == x.count {
            YesNoMaybe::Yes
        } else {
            YesNoMaybe::Maybe
        }),
        _ => false,
    }
}

/// What `singleton` of the rule's kind gives for `value` at `index`.
pub open spec fn singleton_holds<F: Fn(&[i32]) -> bool>(rule: Rule<F>, index: int, value: i32, r: Summary) -> bool {
    match rule {
        Rule::Sum(_) => r == Summary::Interval(Interval { min: value as i64, max: value as i64 }),
        Rule::Prod(_) => r == Summary::Interval(Interval { min: value as i64, max: value as i64 }),
        Rule::Count(_) => r matches Summary::Counts(x) && x@ == seq![(value, 1u32, 1u32)],
        Rule::Pred(p) => r matches Summary::Slots(x) && x@ == pred_singleton(p.num_params as nat, index, value),
        Rule::Words(q) => r matches Summary::Words(x) && x.count == 1 && bits_of(x.set).len() == q.allowed_seqs@.len()
            && forall|i: int| 0 <= i < q.allowed_seqs@.len() ==> #[trigger] bits_of(x.set)[i] == (q.allowed_seqs@[i]@[index] == value),
        _ => r matches Summary::Bags(x) && x.min.0@ == seq![value] && x.max.0@ == seq![value],
    }
}

impl<F: Fn(&[i32]) -> bool> Rule<F> {
    pub open spec fn wf(&self) -> bool {
        match self {
            Rule::Pred(p) => p.wf(),
            Rule::Words(s) => s.wf(),
            Rule::Subset(s) => s.0.wf(),
            Rule::Superset(s) => s.0.wf(),
            Rule::SubsetAndSuperset(s) => s.min.wf() && s.max.wf(),
            Rule::Permutation(p) => p.expected.wf(),
            _ => true,
        }
    }

    /// The number of positions the rule is written for, where it fixes one.
    pub open spec fn arity_ok(&self, n: nat) -> bool {
        match self {
            Rule::Pred(p) => p.num_params == n,
            Rule::Words(s) => s.seq_len == n,
            _ => true,
        }
    }

    /// A summary of the form this rule works with.
    pub open spec fn fits(&self, s: Summary) -> bool {
        match (self, s) {
            (Rule::Sum(_), Summary::Interval(_)) => true,
            (Rule::Prod(_), Summary::Interval(_)) => true,
            (Rule::Subset(_), Summary::Bags(b)) => b.wf(),
            (Rule::Superset(_), Summary::Bags(b)) => b.wf(),
            (Rule::SubsetAndSuperset(_), Summary::Bags(b)) => b.wf(),
            (Rule::Permutation(_), Summary::Bags(b)) => b.wf(),
            (Rule::Count(_), Summary::Counts(_)) => true,
            (Rule::Pred(p), Summary::Slots(v)) => v@.len() == p.num_params,
            (Rule::Words(q), Summary::Words(w)) => bits_of(w.set).len() == q.allowed_seqs@.len(),
            _ => false,
        }
    }

    /// An absent summary, or one of the form this rule works with.
    pub open spec fn fits_opt(&self, s: Option<Summary>) -> bool {
        s matches Some(x) ==> self.fits(x)
    }

    pub open spec fn name_spec(&self) -> &'static str {
        match self {
            Rule::Sum(_) => "Sum",
            Rule::Prod(_) => "Prod",
            Rule::Subset(_) => "Subset",
            Rule::Superset(_) => "Superset",
            Rule::SubsetAndSuperset(_) => "SubsetAndSuperset",
            Rule::Permutation(_) => "Permutation",
            Rule::Count(_) => "Count",
            Rule::Pred(_) => "Pred",
            Rule::Words(_) => "Seq",
        }
    }

    /// The kind of the rule, for diagnostics.
    pub fn name(&self) -> (r: &'static str)
        ensures
            r == self.name_spec(),
    {
        match self {
            Rule::Sum(_) => "Sum",
            Rule::Prod(_) => "Prod",
            Rule::Subset(_) => "Subset",
            Rule::Superset(_) => "Superset",
            Rule::SubsetAndSuperset(_) => "SubsetAndSuperset",
            Rule::Permutation(_) => "Permutation",
            Rule::Count(_) => "Count",
            Rule::Pred(_) => "Pred",
            Rule::Words(_) => "Seq",
        }
    }

    /// The summary of position `index` holding `value`.
    pub fn singleton(&self, index: usize, value: i32) -> (r: Summary)
        requires
            self.wf(),
            match self {
                Rule::Pred(p) => index < p.num_params,
                Rule::Words(s) => index < s.seq_len,
                _ => true,
            },
        ensures
            self.fits(r),
            singleton_holds(*self, index as int, value, r),
    {
        match self {
            Rule::Sum(s) => Summary::Interval(s.singleton(index, value)),
            Rule::Prod(p) => Summary::Interval(p.singleton(index, value)),
            Rule::Subset(_) => Summary::Bags(BagRange::singleton(value)),
            Rule::Superset(_) => Summary::Bags(BagRange::singleton(value)),
            Rule::SubsetAndSuperset(_) => Summary::Bags(BagRange::singleton(value)),
            Rule::Permutation(_) => Summary::Bags(BagRange::singleton(value)),
            Rule::Count(c) => Summary::Counts(c.singleton(index, value)),
            Rule::Pred(p) => Summary::Slots(p.singleton(index, value)),
            Rule::Words(q) => Summary::Words(q.singleton(index, value)),
        }
    }

    /// Joins the summaries of two disjoint groups of positions.
    pub fn and(&self, a: Summary, b: Summary) -> (r: Summary)
        requires
            self.fits(a),
            self.fits(b),
        ensures
            self.fits(r),
            and_holds(*self, a, b, r),
    {
        match (self, a, b) {
            (Rule::Sum(s), Summary::Interval(x), Summary::Interval(y)) => Summary::Interval(s.and(x, y)),
            (Rule::Prod(p), Summary::Interval(x), Summary::Interval(y)) => Summary::Interval(p.and(x, y)),
            (Rule::Count(c), Summary::Counts(x), Summary::Counts(y)) => Summary::Counts(c.and(&x, &y)),
            (Rule::Pred(p), Summary::Slots(x), Summary::Slots(y)) => Summary::Slots(p.and(x, y)),
            (Rule::Words(q), Summary::Words(x), Summary::Words(y)) => Summary::Words(q.and(x, y)),
            (_, Summary::Bags(x), Summary::Bags(y)) => Summary::Bags(x.and(y)),
            (_, x, _) => x,
        }
    }

    /// Joins the summaries of two alternatives for one group of positions.
    pub fn or(&self, a: Summary, b: Summary) -> (r: Summary)
        requires
            self.fits(a),
            self.fits(b),
        ensures
            self.fits(r),
            or_holds(*self, a, b, r),
    {
        match (self, a, b) {
            (Rule::Sum(s), Summary::Interval(x), Summary::Interval(y)) => Summary::Interval(s.or(x, y)),
            (Rule::Prod(p), Summary::Interval(x), Summary::Interval(y)) => Summary::Interval(p.or(x, y)),
            (Rule::Count(c), Summary::Counts(x), Summary::Counts(y)) => Summary::Counts(c.or(&x, &y)),
            (Rule::Pred(p), Summary::Slots(x), Summary::Slots(y)) => Summary::Slots(p.or(x, y)),
            (Rule::Words(q), Summary::Words(x), Summary::Words(y)) => Summary::Words(q.or(x, y)),
            (_, Summary::Bags(x), Summary::Bags(y)) => Summary::Bags(x.or(y)),
            (_, x, _) => x,
        }
    }

    /// Whether the positions summarized surely, possibly or surely not satisfy the rule.
    pub fn check(&self, s: &Summary) -> (r: YesNoMaybe)
        requires
            self.wf(),
            self.fits(*s),
        ensures
            check_holds(*self, *s, r),
    {
        match (self, s) {
            (Rule::Sum(c), Summary::Interval(x)) => c.check(*x),
            (Rule::Prod(c), Summary::Interval(x)) => c.check(*x),
            (Rule::Subset(c), Summary::Bags(x)) => c.check(x),
            (Rule::Superset(c), Summary::Bags(x)) => c.check(x),
            (Rule::SubsetAndSuperset(c), Summary::Bags(x)) => c.check(x),
            (Rule::Permutation(c), Summary::Bags(x)) => c.check(x),
            (Rule::Count(c), Summary::Counts(x)) => c.check(x),
            (Rule::Pred(c), Summary::Slots(x)) => c.check(copy_slots(x)),
            (Rule::Words(c), Summary::Words(x)) => c.check(x),
            _ => YesNoMaybe::Maybe,
        }
    }
}

} // verus!
