use vstd::prelude::*;
use crate::logic::{YesNoMaybe, and_spec};

verus! {

/// For each value, the least and the most number of times it occurs; the later entry for a value wins,
/// and a value without an entry has `(0, 0)`.
pub open spec fn lookup(s: Seq<(i32, u32, u32)>, k: i32) -> (u32, u32)
    decreases s.len(),
{
    if s.len() == 0 {
        (0, 0)
    } else if s.last().0 == k {
        (s.last().1, s.last().2)
    } else {
        lookup(s.drop_last(), k)
    }
}

pub open spec fn has_key(s: Seq<(i32, u32, u32)>, k: i32) -> bool {
    exists|i: int| 0 <= i < s.len() && #[trigger] s[i].0 == k
}

pub open spec fn sat_add(x: u32, y: u32) -> u32 {
    if x + y > u32::MAX { u32::MAX } else { (x + y) as u32 }
}

/// Disjoint groups add their bounds; alternatives take the smaller least and the larger most count.
pub open spec fn combine_spec(adding: bool, x: (u32, u32), y: (u32, u32)) -> (u32, u32) {
    if adding {
        (sat_add(x.0, y.0), sat_add(x.1, y.1))
    } else {
        (if x.0 <= y.0 { x.0 } else { y.0 }, if x.1 >= y.1 { x.1 } else { y.1 })
    }
}

/// The verdict for one value: the actual range of counts against the allowed one.
pub open spec fn count_verdict(actual: (u32, u32), limit: (u32, u32)) -> YesNoMaybe {
    if actual.0 > limit.1 || actual.1 < limit.0 {
        YesNoMaybe::No
    } else if actual.0 >= limit.0 && actual.1 <= limit.1 {
        YesNoMaybe::Yes
    } else {
        YesNoMaybe::Maybe
    }
}

/// The verdicts of all values, joined by conjunction.
pub open spec fn count_check(set: Seq<(i32, u32, u32)>, limits: Seq<(i32, u32, u32)>) -> YesNoMaybe {
    if exists|k: i32| count_verdict(lookup(set, k), lookup(limits, k)) == YesNoMaybe::No {
        YesNoMaybe::No
    } else if forall|k: i32| count_verdict(lookup(set, k), lookup(limits, k)) == YesNoMaybe::Yes {
        YesNoMaybe::Yes
    } else {
        YesNoMaybe::Maybe
    }
}

proof fn lemma_lookup_push(s: Seq<(i32, u32, u32)>, e: (i32, u32, u32), k: i32)
    ensures
        lookup(s.push(e), k) == (if e.0 == k { (e.1, e.2) } else { lookup(s, k) }),
{
    assert(s.push(e).drop_last() =~= s);
}

proof fn lemma_lookup_absent(s: Seq<(i32, u32, u32)>, k: i32)
    requires
        !has_key(s, k),
    ensures
        lookup(s, k) == (0u32, 0u32),
    decreases s.len(),
{
    if s.len() > 0 {
        assert(s.last().0 != k) by {
            assert(s[s.len() - 1].0 == s.last().0);
        }
        assert(!has_key(s.drop_last(), k)) by {
            if has_key(s.drop_last(), k) {
                let i = choose|i: int| 0 <= i < s.drop_last().len() && #[trigger] s.drop_last()[i].0 == k;
                assert(s[i].0 == k);
            }
        }
        lemma_lookup_absent(s.drop_last(), k);
    }
}

proof fn lemma_has_key_take(s: Seq<(i32, u32, u32)>, i: int, k: i32)
    requires
        0 <= i < s.len(),
    ensures
        has_key(s.take(i + 1), k) == (has_key(s.take(i), k) || s[i].0 == k),
{
    if has_key(s.take(i + 1), k) {
        let m = choose|m: int| 0 <= m < s.take(i + 1).len() && #[trigger] s.take(i + 1)[m].0 == k;
        if m < i {
            assert(s.take(i)[m].0 == k);
        }
    }
    if has_key(s.take(i), k) {
        let m = choose|m: int| 0 <= m < s.take(i).len() && #[trigger] s.take(i)[m].0 == k;
        assert(s.take(i + 1)[m].0 == k);
    }
    if s[i].0 == k {
        assert(s.take(i + 1)[i].0 == k);
    }
}

/// The bounds that a summary or a list of limits gives the value `k`.
pub fn count_bounds(s: &Vec<(i32, u32, u32)>, k: i32) -> (r: (u32, u32))
    ensures
        r == lookup(s@, k),
{
    lookup_exec(s, k)
}

fn lookup_exec(s: &Vec<(i32, u32, u32)>, k: i32) -> (r: (u32, u32))
    ensures
        r == lookup(s@, k),
{
    let mut found: (u32, u32) = (0, 0);
    let mut i: usize = 0;
    while i < s.len()
        invariant
            i <= s@.len(),
            found == lookup(s@.take(i as int), k),
        decreases s.len() - i,
    {
        proof {
            assert(s@.take(i + 1) =~= s@.take(i as int).push(s@[i as int]));
            lemma_lookup_push(s@.take(i as int), s@[i as int], k);
        }
        let e = s[i];
        if e.0 == k {
            found = (e.1, e.2);
        }
        i = i + 1;
    }
    assert(s@.take(s@.len() as int) =~= s@);
    found
}

fn add_sat(x: u32, y: u32) -> (r: u32)
    ensures
        r == sat_add(x, y),
{
    if x > u32::MAX - y {
        u32::MAX
    } else {
        x + y
    }
}

fn combine_exec(adding: bool, x: (u32, u32), y: (u32, u32)) -> (r: (u32, u32))
    ensures
        r == combine_spec(adding, x, y),
{
    if adding {
        (add_sat(x.0, y.0), add_sat(x.1, y.1))
    } else {
        (if x.0 <= y.0 { x.0 } else { y.0 }, if x.1 >= y.1 { x.1 } else { y.1 })
    }
}

/// Every value of either map, with its two entries combined.
fn combine_maps(a: &Vec<(i32, u32, u32)>, b: &Vec<(i32, u32, u32)>, adding: bool) -> (r: Vec<(i32, u32, u32)>)
    ensures
        forall|k: i32| lookup(r@, k) == combine_spec(adding, lookup(a@, k), lookup(b@, k)),
{
    let mut out: Vec<(i32, u32, u32)> = Vec::new();
    let mut i: usize = 0;
    while i < a.len()
        invariant
            i <= a@.len(),
            forall|k: i32| #[trigger] lookup(out@, k) == (if has_key(a@.take(i as int), k) { combine_spec(adding, lookup(a@, k), lookup(b@, k)) } else { (0u32, 0u32) }),
        decreases a.len() - i,
    {
        let key = a[i].0;
        let c = combine_exec(adding, lookup_exec(a, key), lookup_exec(b, key));
        let ghost old_out = out@;
        out.push((key, c.0, c.1));
        proof {
            assert forall|k: i32| #[trigger] lookup(out@, k) == (if has_key(a@.take(i + 1), k) { combine_spec(adding, lookup(a@, k), lookup(b@, k)) } else { (0u32, 0u32) }) by {
                lemma_lookup_push(old_out, (key, c.0, c.1), k);
                lemma_has_key_take(a@, i as int, k);
            }
        }
        i = i + 1;
    }
    assert(a@.take(a@.len() as int) =~= a@);
    let mut j: usize = 0;
    while j < b.len()
        invariant
            j <= b@.len(),
            forall|k: i32| #[trigger] lookup(out@, k) == (if has_key(a@, k) || has_key(b@.take(j as int), k) { combine_spec(adding, lookup(a@, k), lookup(b@, k)) } else { (0u32, 0u32) }),
        decreases b.len() - j,
    {
        let key = b[j].0;
        let c = combine_exec(adding, lookup_exec(a, key), lookup_exec(b, key));
        let ghost old_out = out@;
        out.push((key, c.0, c.1));
        proof {
            assert forall|k: i32| #[trigger] lookup(out@, k) == (if has_key(a@, k) || has_key(b@.take(j + 1), k) { combine_spec(adding, lookup(a@, k), lookup(b@, k)) } else { (0u32, 0u32) }) by {
                lemma_lookup_push(old_out, (key, c.0, c.1), k);
                lemma_has_key_take(b@, j as int, k);
            }
        }
        j = j + 1;
    }
    proof {
        assert(a@.take(a@.len() as int) =~= a@);
        assert(b@.take(b@.len() as int) =~= b@);
        assert forall|k: i32| lookup(out@, k) == combine_spec(adding, lookup(a@, k), lookup(b@, k)) by {
            if !has_key(a@, k) && !has_key(b@, k) {
                lemma_lookup_absent(a@, k);
                lemma_lookup_absent(b@, k);
            }
        }
    }
    out
}

/// The constraint that each value occurs, over its positions, a number of times within given bounds.
/// A value without bounds may not occur at all.
#[derive(Debug, Clone)]
pub struct Count {
    pub count_limits: Vec<(i32, u32, u32)>,
}

impl Count {
    /// Bounds `(value, min, max)`; a later entry for the same value replaces an earlier one.
    pub fn new(count_limits: Vec<(i32, u32, u32)>) -> (r: Count)
        ensures
            r.count_limits@ == count_limits@,
    {
        Count { count_limits }
    }

    pub fn singleton(&self, index: usize, value: i32) -> (r: Vec<(i32, u32, u32)>)
        ensures
            r@ == seq![(value, 1u32, 1u32)],
    {
        let mut r: Vec<(i32, u32, u32)> = Vec::new();
        r.push((value, 1, 1));
        r
    }

    pub fn and(&self, a: &Vec<(i32, u32, u32)>, b: &Vec<(i32, u32, u32)>) -> (r: Vec<(i32, u32, u32)>)
        ensures
            forall|k: i32| lookup(r@, k) == combine_spec(true, lookup(a@, k), lookup(b@, k)),
    {
        combine_maps(a, b, true)
    }

    pub fn or(&self, a: &Vec<(i32, u32, u32)>, b: &Vec<(i32, u32, u32)>) -> (r: Vec<(i32, u32, u32)>)
        ensures
            forall|k: i32| lookup(r@, k) == combine_spec(false, lookup(a@, k), lookup(b@, k)),
    {
        combine_maps(a, b, false)
    }

    pub fn check(&self, set: &Vec<(i32, u32, u32)>) -> (r: YesNoMaybe)
        ensures
            r == count_check(set@, self.count_limits@),
    {
        let limits = &self.count_limits;
        let verdict = check_keys(set, limits, set, YesNoMaybe::Yes);
        let verdict = check_keys(set, limits, limits, verdict);
        proof {
            assert forall|k: i32| count_verdict(lookup(set@, k), lookup(limits@, k)) == YesNoMaybe::No
                || count_verdict(lookup(set@, k), lookup(limits@, k)) == YesNoMaybe::Maybe implies
                (has_key(set@, k) || has_key(limits@, k)) by {
                if !has_key(set@, k) && !has_key(limits@, k) {
                    lemma_lookup_absent(set@, k);
                    lemma_lookup_absent(limits@, k);
                }
            }
            if verdict != YesNoMaybe::No {
                assert forall|k: i32| count_verdict(lookup(set@, k), lookup(limits@, k)) != YesNoMaybe::No by {
                    if count_verdict(lookup(set@, k), lookup(limits@, k)) == YesNoMaybe::No {
                        if has_key(set@, k) {
                            let m = choose|m: int| 0 <= m < set@.len() && #[trigger] set@[m].0 == k;
                        } else {
                            let m = choose|m: int| 0 <= m < limits@.len() && #[trigger] limits@[m].0 == k;
                        }
                    }
                }
            }
            if verdict == YesNoMaybe::Yes {
                assert forall|k: i32| count_verdict(lookup(set@, k), lookup(limits@, k)) == YesNoMaybe::Yes by {
                    if count_verdict(lookup(set@, k), lookup(limits@, k)) != YesNoMaybe::Yes {
                        if has_key(set@, k) {
                            let m = choose|m: int| 0 <= m < set@.len() && #[trigger] set@[m].0 == k;
                        } else {
                            let m = choose|m: int| 0 <= m < limits@.len() && #[trigger] limits@[m].0 == k;
                        }
                    }
                }
            }
        }
        verdict
    }
}

/// Joins into `verdict` the verdicts of the values that are keys of `keys`.
fn check_keys(
    set: &Vec<(i32, u32, u32)>,
    limits: &Vec<(i32, u32, u32)>,
    keys: &Vec<(i32, u32, u32)>,
    verdict: YesNoMaybe,
) -> (r: YesNoMaybe)
    ensures
        r == YesNoMaybe::No ==> (verdict == YesNoMaybe::No || exists|k: i32| count_verdict(lookup(set@, k), lookup(limits@, k)) == YesNoMaybe::No),
        r != YesNoMaybe::No ==> verdict != YesNoMaybe::No,
        r != YesNoMaybe::No ==> forall|m: int| 0 <= m < keys@.len() ==> count_verdict(
            lookup(set@, #[trigger] keys@[m].0), lookup(limits@, keys@[m].0)) != YesNoMaybe::No,
        r == YesNoMaybe::Yes ==> verdict == YesNoMaybe::Yes,
        r == YesNoMaybe::Yes ==> forall|m: int| 0 <= m < keys@.len() ==> count_verdict(
            lookup(set@, #[trigger] keys@[m].0), lookup(limits@, keys@[m].0)) == YesNoMaybe::Yes,
        r == YesNoMaybe::Maybe ==> (verdict == YesNoMaybe::Maybe || exists|k: i32| count_verdict(lookup(set@, k), lookup(limits@, k)) == YesNoMaybe::Maybe),
{
    let mut acc = verdict;
    let mut i: usize = 0;
    while i < keys.len()
        invariant
            i <= keys@.len(),
            acc == YesNoMaybe::No ==> (verdict == YesNoMaybe::No || exists|k: i32| count_verdict(lookup(set@, k), lookup(limits@, k)) == YesNoMaybe::No),
            acc != YesNoMaybe::No ==> verdict != YesNoMaybe::No,
            acc != YesNoMaybe::No ==> forall|m: int| 0 <= m < i ==> count_verdict(
                lookup(set@, #[trigger] keys@[m].0), lookup(limits@, keys@[m].0)) != YesNoMaybe::No,
            acc == YesNoMaybe::Yes ==> verdict == YesNoMaybe::Yes,
            acc == YesNoMaybe::Yes ==> forall|m: int| 0 <= m < i ==> count_verdict(
                lookup(set@, #[trigger] keys@[m].0), lookup(limits@, keys@[m].0)) == YesNoMaybe::Yes,
            acc == YesNoMaybe::Maybe ==> (verdict == YesNoMaybe::Maybe || exists|k: i32| count_verdict(lookup(set@, k), lookup(limits@, k)) == YesNoMaybe::Maybe),
        decreases keys.len() - i,
    {
        let key = keys[i].0;
        let v = count_verdict_exec(lookup_exec(set, key), lookup_exec(limits, key));
        acc = acc.and(v);
        i = i + 1;
    }
    acc
}

fn count_verdict_exec(actual: (u32, u32), limit: (u32, u32)) -> (r: YesNoMaybe)
    ensures
        r == count_verdict(actual, limit),
{
    if actual.0 > limit.1 || actual.1 < limit.0 {
        YesNoMaybe::No
    } else if actual.0 >= limit.0 && actual.1 <= limit.1 {
        YesNoMaybe::Yes
    } else {
        YesNoMaybe::Maybe
    }
}

} // verus!
