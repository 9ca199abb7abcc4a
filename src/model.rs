use vstd::prelude::*;
use crate::bag::count;
use crate::count::lookup;
use crate::logic::YesNoMaybe;
use crate::rule::{and_holds, check_holds, or_holds, singleton_holds, Rule, Summary};
use crate::sequence::bits_of;
use crate::pred::{all_known, known_values};

verus! {

/// Two summaries that say the same thing: equal intervals, slots or bit sets, and the same
/// counts for bags and for count bounds.
pub open spec fn equiv(a: Summary, b: Summary) -> bool {
    match (a, b) {
        (Summary::Interval(x), Summary::Interval(y)) => x == y,
        (Summary::Bags(x), Summary::Bags(y)) => (forall|v: i32| count(x.min.0@, v) == count(y.min.0@, v))
            && (forall|v: i32| count(x.max.0@, v) == count(y.max.0@, v)),
        (Summary::Counts(x), Summary::Counts(y)) => forall|k: i32| lookup(x@, k) == lookup(y@, k),
        (Summary::Slots(x), Summary::Slots(y)) => x@ == y@,
        (Summary::Words(x), Summary::Words(y)) => bits_of(x.set) == bits_of(y.set) && x.count == y.count,
        _ => false,
    }
}

pub open spec fn equiv_opt(a: Option<Summary>, b: Option<Summary>) -> bool {
    match (a, b) {
        (None, None) => true,
        (Some(x), Some(y)) => equiv(x, y),
        _ => false,
    }
}

/// The summary `and` gives (any one of the equivalent ones).
pub open spec fn and_f<F: Fn(&[i32]) -> bool>(rule: Rule<F>, a: Summary, b: Summary) -> Summary {
    choose|r: Summary| rule.fits(r) && and_holds(rule, a, b, r)
}

/// The summary `or` gives (any one of the equivalent ones).
pub open spec fn or_f<F: Fn(&[i32]) -> bool>(rule: Rule<F>, a: Summary, b: Summary) -> Summary {
    choose|r: Summary| rule.fits(r) && or_holds(rule, a, b, r)
}

/// The summary `singleton` gives (any one of the equivalent ones).
pub open spec fn single_f<F: Fn(&[i32]) -> bool>(rule: Rule<F>, index: int, value: i32) -> Summary {
    choose|r: Summary| rule.fits(r) && singleton_holds(rule, index, value, r)
}

/// What `check` answers.
pub open spec fn verdict_f<F: Fn(&[i32]) -> bool>(rule: Rule<F>, s: Summary) -> YesNoMaybe {
    choose|r: YesNoMaybe| check_holds(rule, s, r)
}

/// Joining two optional summaries of disjoint groups; an absent one adds nothing.
pub open spec fn and_opt<F: Fn(&[i32]) -> bool>(rule: Rule<F>, a: Option<Summary>, b: Option<Summary>) -> Option<Summary> {
    match (a, b) {
        (Some(x), Some(y)) => Some(and_f(rule, x, y)),
        (Some(x), None) => Some(x),
        (None, y) => y,
    }
}

/// Joining two optional summaries of alternatives; an absent one adds nothing.
pub open spec fn or_opt<F: Fn(&[i32]) -> bool>(rule: Rule<F>, a: Option<Summary>, b: Option<Summary>) -> Option<Summary> {
    match (a, b) {
        (Some(x), Some(y)) => Some(or_f(rule, x, y)),
        (Some(x), None) => Some(x),
        (None, y) => y,
    }
}

pub proof fn lemma_equiv_transitive(a: Summary, b: Summary, c: Summary)
    requires
        equiv(a, b),
        equiv(b, c),
    ensures
        equiv(a, c),
{
}

/// `and` depends on what its operands say only, and says one thing.
pub proof fn lemma_and_f<F: Fn(&[i32]) -> bool>(rule: Rule<F>, a: Summary, b: Summary, a2: Summary, b2: Summary, r: Summary)
    requires
        rule.fits(a),
        rule.fits(b),
        equiv(a, a2),
        equiv(b, b2),
        rule.fits(r),
        and_holds(rule, a, b, r),
    ensures
        equiv(r, and_f(rule, a2, b2)),
        rule.fits(and_f(rule, a2, b2)),
{
    assert(and_holds(rule, a2, b2, r));
    let c = and_f(rule, a2, b2);
    assert(rule.fits(c) && and_holds(rule, a2, b2, c));
}

/// `or` depends on what its operands say only, and says one thing.
pub proof fn lemma_or_f<F: Fn(&[i32]) -> bool>(rule: Rule<F>, a: Summary, b: Summary, a2: Summary, b2: Summary, r: Summary)
    requires
        rule.fits(a),
        rule.fits(b),
        equiv(a, a2),
        equiv(b, b2),
        rule.fits(r),
        or_holds(rule, a, b, r),
    ensures
        equiv(r, or_f(rule, a2, b2)),
        rule.fits(or_f(rule, a2, b2)),
{
    assert(or_holds(rule, a2, b2, r));
    let c = or_f(rule, a2, b2);
    assert(rule.fits(c) && or_holds(rule, a2, b2, c));
}

/// `singleton` says one thing.
pub proof fn lemma_single_f<F: Fn(&[i32]) -> bool>(rule: Rule<F>, index: int, value: i32, r: Summary)
    requires
        rule.fits(r),
        singleton_holds(rule, index, value, r),
    ensures
        equiv(r, single_f(rule, index, value)),
        rule.fits(single_f(rule, index, value)),
{
    let c = single_f(rule, index, value);
    assert(rule.fits(c) && singleton_holds(rule, index, value, c));
    match (r, c) {
        (Summary::Words(x), Summary::Words(y)) => {
            assert(bits_of(x.set) =~= bits_of(y.set));
        },
        _ => {},
    }
}

/// `check` depends on what the summary says only, and answers one thing.
pub proof fn lemma_verdict_f<F: Fn(&[i32]) -> bool>(rule: Rule<F>, s: Summary, s2: Summary, r: YesNoMaybe)
    requires
        rule.wf(),
        rule.fits(s),
        equiv(s, s2),
        check_holds(rule, s, r),
    ensures
        r == verdict_f(rule, s2),
{
    assert(check_holds(rule, s2, r));
    let c = verdict_f(rule, s2);
    assert(check_holds(rule, s2, c));
    match (rule, s2) {
        (Rule::Pred(p), Summary::Slots(x)) => {
            if all_known(x@) {
                let (v1, b1) = choose|v: &[i32], b: bool|
                    v@ == known_values(x@) && #[trigger] p.pred.ensures((v,), b) && (b <==> r == YesNoMaybe::Yes);
                let (v2, b2) = choose|v: &[i32], b: bool|
                    v@ == known_values(x@) && #[trigger] p.pred.ensures((v,), b) && (b <==> c == YesNoMaybe::Yes);
                assert(b1 == b2);
            }
        },
        _ => {},
    }
}

} // verus!
