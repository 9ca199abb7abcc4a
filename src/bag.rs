use vstd::prelude::*;

verus! {

broadcast use vstd::seq_lib::group_to_multiset_ensures, vstd::multiset::group_multiset_properties;

/// How many times `x` occurs in `s`.
pub open spec fn count(s: Seq<i32>, x: i32) -> nat {
    s.to_multiset().count(x)
}

pub open spec fn sorted(s: Seq<i32>) -> bool {
    forall|i: int, j: int| 0 <= i < j < s.len() ==> s[i] <= s[j]
}

pub open spec fn max_nat(a: nat, b: nat) -> nat {
    if a >= b { a } else { b }
}

pub open spec fn min_nat(a: nat, b: nat) -> nat {
    if a <= b { a } else { b }
}

proof fn lemma_count_take(s: Seq<i32>, i: int, x: i32)
    requires
        0 <= i < s.len(),
    ensures
        count(s.take(i + 1), x) == count(s.take(i), x) + (if s[i] == x { 1nat } else { 0nat }),
{
    assert(s.take(i + 1) =~= s.take(i).push(s[i]));
}

proof fn lemma_count_push(s: Seq<i32>, y: i32, x: i32)
    ensures
        count(s.push(y), x) == count(s, x) + (if y == x { 1nat } else { 0nat }),
{
}

proof fn lemma_take_full(s: Seq<i32>)
    ensures
        s.take(s.len() as int) == s,
{
    assert(s.take(s.len() as int) =~= s);
}

/// How many times `x` occurs in `v`.
fn count_of(v: &Vec<i32>, x: i32) -> (r: usize)
    ensures
        r == count(v@, x),
{
    let mut n: usize = 0;
    let mut i: usize = 0;
    while i < v.len()
        invariant
            i <= v@.len(),
            n == count(v@.take(i as int), x),
            n <= i,
        decreases v.len() - i,
    {
        proof {
            lemma_count_take(v@, i as int, x);
        }
        if v[i] == x {
            n = n + 1;
        }
        i = i + 1;
    }
    proof {
        lemma_take_full(v@);
    }
    n
}

/// A multiset of values, held as a sorted vector (values may repeat).
#[derive(Debug, Clone, PartialEq, Eq)]
pub struct Bag(pub Vec<i32>);

impl Bag {
    pub open spec fn wf(&self) -> bool {
        sorted(self.0@)
    }

    pub fn empty() -> (r: Bag)
        ensures
            r.wf(),
            r.0@ == Seq::<i32>::empty(),
    {
        Bag(Vec::new())
    }

    pub fn singleton(elem: i32) -> (r: Bag)
        ensures
            r.wf(),
            r.0@ == seq![elem],
    {
        let mut v: Vec<i32> = Vec::new();
        v.push(elem);
        Bag(v)
    }

    /// The bag of the given values, in sorted order.
    pub fn new(elems: Vec<i32>) -> (r: Bag)
        ensures
            r.wf(),
            forall|x: i32| count(r.0@, x) == count(elems@, x),
    {
        let mut acc = Bag::empty();
        let mut i: usize = 0;
        while i < elems.len()
            invariant
                i <= elems@.len(),
                acc.wf(),
                forall|x: i32| count(acc.0@, x) == count(elems@.take(i as int), x),
            decreases elems.len() - i,
        {
            proof {
                assert forall|x: i32| count(elems@.take(i + 1), x) == count(elems@.take(i as int), x) + (if elems@[i as int] == x { 1nat } else { 0nat }) by {
                    lemma_count_take(elems@, i as int, x);
                }
            }
            acc = acc.sum(Bag::singleton(elems[i]));
            i = i + 1;
        }
        proof {
            lemma_take_full(elems@);
        }
        acc
    }

    /// Multiset sum: each value occurs as often as in both bags together.
    pub fn sum(self, other: Bag) -> (r: Bag)
        requires
            self.wf(),
            other.wf(),
        ensures
            r.wf(),
            forall|x: i32| count(r.0@, x) == count(self.0@, x) + count(other.0@, x),
    {
        let a = self.0;
        let b = other.0;
        let mut out: Vec<i32> = Vec::new();
        let mut i: usize = 0;
        let mut j: usize = 0;
        while i < a.len() || j < b.len()
            invariant
                i <= a@.len(),
                j <= b@.len(),
                sorted(a@),
                sorted(b@),
                sorted(out@),
                forall|k: int, m: int| 0 <= k < out@.len() && i <= m < a@.len() ==> out@[k] <= a@[m],
                forall|k: int, m: int| 0 <= k < out@.len() && j <= m < b@.len() ==> out@[k] <= b@[m],
                forall|x: i32| count(out@, x) == count(a@.take(i as int), x) + count(b@.take(j as int), x),
            decreases a.len() + b.len() - i - j,
        {
            let old_out = Ghost(out@);
            if j >= b.len() || (i < a.len() && a[i] < b[j]) {
                let x = a[i];
                out.push(x);
                proof {
                    assert forall|y: i32| count(out@, y) == count(a@.take(i + 1), y) + count(b@.take(j as int), y) by {
                        lemma_count_take(a@, i as int, y);
                        lemma_count_push(old_out@, x, y);
                    }
                }
                i = i + 1;
            } else {
                let x = b[j];
                out.push(x);
                proof {
                    assert forall|y: i32| count(out@, y) == count(a@.take(i as int), y) + count(b@.take(j + 1), y) by {
                        lemma_count_take(b@, j as int, y);
                        lemma_count_push(old_out@, x, y);
                    }
                }
                j = j + 1;
            }
        }
        proof {
            lemma_take_full(a@);
            lemma_take_full(b@);
        }
        Bag(out)
    }

    /// The values of `self` in order, where the k-th copy of a value is kept when `other` holds at
    /// least k copies of it (`keep_common`), or when it holds fewer (otherwise).
    fn filter_by_count(&self, other: &Bag, keep_common: bool) -> (r: Bag)
        requires
            self.wf(),
        ensures
            r.wf(),
            keep_common ==> forall|x: i32| count(r.0@, x) == min_nat(count(self.0@, x), count(other.0@, x)),
            !keep_common ==> forall|x: i32| count(r.0@, x) == (if count(self.0@, x) > count(other.0@, x) { (count(self.0@, x) - count(other.0@, x)) as nat } else { 0nat }),
    {
        let a = &self.0;
        let mut out: Vec<i32> = Vec::new();
        let mut i: usize = 0;
        while i < a.len()
            invariant
                i <= a@.len(),
                sorted(a@),
                sorted(out@),
                forall|k: int, m: int| 0 <= k < out@.len() && i <= m < a@.len() ==> out@[k] <= a@[m],
                keep_common ==> forall|x: i32| count(out@, x) == min_nat(count(a@.take(i as int), x), count(other.0@, x)),
                !keep_common ==> forall|x: i32| count(out@, x) == (if count(a@.take(i as int), x) > count(other.0@, x) { (count(a@.take(i as int), x) - count(other.0@, x)) as nat } else { 0nat }),
            decreases a.len() - i,
        {
            let x = a[i];
            let seen = count_of(a, x);
            proof {
                assert forall|y: i32| count(a@.take(i + 1), y) == count(a@.take(i as int), y) + (if x == y { 1nat } else { 0nat }) by {
                    lemma_count_take(a@, i as int, y);
                }
            }
            let mut before: usize = 0;
            let mut k: usize = 0;
            while k < i
                invariant
                    k <= i,
                    i < a@.len(),
                    before == count(a@.take(k as int), x),
                    before <= k,
                decreases i - k,
            {
                proof {
                    lemma_count_take(a@, k as int, x);
                }
                if a[k] == x {
                    before = before + 1;
                }
                k = k + 1;
            }
            assert(a@.take(i as int).take(i as int) =~= a@.take(i as int));
            let in_other = count_of(&other.0, x);
            let old_out = Ghost(out@);
            let keep = if keep_common { before < in_other } else { before >= in_other };
            if keep {
                out.push(x);
            }
            proof {
                assert forall|y: i32| count(out@, y) == count(old_out@, y) + (if keep && x == y { 1nat } else { 0nat }) by {
                    lemma_count_push(old_out@, x, y);
                }
            }
            i = i + 1;
        }
        proof {
            lemma_take_full(a@);
        }
        Bag(out)
    }

    /// Multiset union: each value occurs as often as in the bag holding it more often.
    pub fn union(self, other: Bag) -> (r: Bag)
        requires
            self.wf(),
            other.wf(),
        ensures
            r.wf(),
            forall|x: i32| count(r.0@, x) == max_nat(count(self.0@, x), count(other.0@, x)),
    {
        let extra = other.filter_by_count(&self, false);
        let r = self.sum(extra);
        r
    }

    /// Multiset intersection: each value occurs as often as in the bag holding it less often.
    pub fn intersection(self, other: Bag) -> (r: Bag)
        requires
            self.wf(),
            other.wf(),
        ensures
            r.wf(),
            forall|x: i32| count(r.0@, x) == min_nat(count(self.0@, x), count(other.0@, x)),
    {
        self.filter_by_count(&other, true)
    }

    /// Whether every value occurs in `other` at least as often as in `self`.
    pub fn is_subset(&self, other: &Bag) -> (r: bool)
        ensures
            r == (forall|x: i32| count(self.0@, x) <= count(other.0@, x)),
    {
        let mut i: usize = 0;
        while i < self.0.len()
            invariant
                i <= self.0@.len(),
                forall|k: int| 0 <= k < i ==> count(self.0@, #[trigger] self.0@[k]) <= count(other.0@, self.0@[k]),
            decreases self.0.len() - i,
        {
            let x = self.0[i];
            if count_of(&self.0, x) > count_of(&other.0, x) {
                return false;
            }
            i = i + 1;
        }
        proof {
            assert forall|x: i32| count(self.0@, x) <= count(other.0@, x) by {
                if count(self.0@, x) > 0 {
                    assert(self.0@.contains(x));
                    let k = choose|k: int| 0 <= k < self.0@.len() && self.0@[k] == x;
                    assert(count(self.0@, self.0@[k]) <= count(other.0@, self.0@[k]));
                }
            }
        }
        true
    }
}

} // verus!
