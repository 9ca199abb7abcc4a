use vstd::prelude::*;
use crate::logic::YesNoMaybe;

verus! {

/// The constraint that `pred(X1, ..., Xn)` holds, for a predicate given by the caller.
pub struct Pred<F: Fn(&[i32]) -> bool> {
    pub num_params: usize,
    pub pred: F,
}

/// A summary with only position `index` known, holding `value`.
pub open spec fn pred_singleton(n: nat, index: int, value: i32) -> Seq<Option<i32>> {
    Seq::new(n, |i: int| if i == index { Some(value) } else { None })
}

/// Disjoint groups: every slot known in `b` is filled into `a`.
pub open spec fn pred_and(a: Seq<Option<i32>>, b: Seq<Option<i32>>) -> Seq<Option<i32>> {
    Seq::new(a.len(), |i: int| if i < b.len() && b[i] is Some { b[i] } else { a[i] })
}

/// Alternatives: a slot stays known only where both agree on it.
pub open spec fn pred_or(a: Seq<Option<i32>>, b: Seq<Option<i32>>) -> Seq<Option<i32>> {
    Seq::new(a.len(), |i: int| if i < b.len() && a[i] != b[i] { None } else { a[i] })
}

pub open spec fn all_known(s: Seq<Option<i32>>) -> bool {
    forall|i: int| 0 <= i < s.len() ==> s[i] is Some
}

pub open spec fn known_values(s: Seq<Option<i32>>) -> Seq<i32> {
    s.map_values(|o: Option<i32>| o->0)
}

impl<F: Fn(&[i32]) -> bool> Pred<F> {
    /// The predicate may be called on any sequence of values, and gives one answer for each.
    pub open spec fn wf(&self) -> bool {
        &&& forall|v: &[i32]| #[trigger] self.pred.requires((v,))
        &&& forall|v1: &[i32], v2: &[i32], b1: bool, b2: bool|
            v1@ == v2@ && #[trigger] self.pred.ensures((v1,), b1) && #[trigger] self.pred.ensures((v2,), b2) ==> b1 == b2
    }

    /// A predicate over exactly `N` positions.
    pub fn new<const N: usize>(pred: F) -> (r: Pred<F>)
        ensures
            r.num_params == N,
            r.pred == pred,
    {
        Pred { num_params: N, pred }
    }

    /// A predicate over `len` positions, for when that number is only known at run time.
    pub fn new_with_len(len: usize, pred: F) -> (r: Pred<F>)
        ensures
            r.num_params == len,
            r.pred == pred,
    {
        Pred { num_params: len, pred }
    }

    pub fn singleton(&self, index: usize, value: i32) -> (r: Vec<Option<i32>>)
        requires
            index < self.num_params,
        ensures
            r@ == pred_singleton(self.num_params as nat, index as int, value),
    {
        let mut result: Vec<Option<i32>> = Vec::new();
        let mut i: usize = 0;
        while i < self.num_params
            invariant
                i <= self.num_params,
                index < self.num_params,
                result@ =~= pred_singleton(i as nat, index as int, value),
            decreases self.num_params - i,
        {
            if i == index {
                result.push(Some(value));
            } else {
                result.push(None);
            }
            i = i + 1;
        }
        result
    }

    pub fn and(&self, a: Vec<Option<i32>>, b: Vec<Option<i32>>) -> (r: Vec<Option<i32>>)
        ensures
            r@ == pred_and(a@, b@),
    {
        let mut result = a;
        let mut i: usize = 0;
        while i < b.len() && i < result.len()
            invariant
                result@.len() == a@.len(),
                i <= b@.len(),
                forall|k: int| 0 <= k < result@.len() ==> #[trigger] result@[k] == (if k < i && b@[k] is Some { b@[k] } else { a@[k] }),
            decreases b.len() - i,
        {
            if b[i].is_some() {
                result.set(i, b[i]);
            }
            i = i + 1;
        }
        assert(result@ =~= pred_and(a@, b@));
        result
    }

    pub fn or(&self, a: Vec<Option<i32>>, b: Vec<Option<i32>>) -> (r: Vec<Option<i32>>)
        ensures
            r@ == pred_or(a@, b@),
    {
        let mut result = a;
        let mut i: usize = 0;
        while i < b.len() && i < result.len()
            invariant
                result@.len() == a@.len(),
                i <= b@.len(),
                forall|k: int| 0 <= k < result@.len() ==> #[trigger] result@[k] == (if k < i && a@[k] != b@[k] { None } else { a@[k] }),
            decreases b.len() - i,
        {
            if result[i] != b[i] {
                result.set(i, None);
            }
            i = i + 1;
        }
        assert(result@ =~= pred_or(a@, b@));
        result
    }

    /// `Maybe` while any slot is unknown; otherwise what the predicate says of the values.
    pub fn check(&self, s: Vec<Option<i32>>) -> (r: YesNoMaybe)
        requires
            self.wf(),
            s@.len() == self.num_params,
        ensures
            !all_known(s@) ==> r == YesNoMaybe::Maybe,
            all_known(s@) ==> r != YesNoMaybe::Maybe && exists|v: &[i32], b: bool|
                v@ == known_values(s@) && #[trigger] self.pred.ensures((v,), b) && (b <==> r == YesNoMaybe::Yes),
    {
        let mut values: Vec<i32> = Vec::new();
        let mut i: usize = 0;
        while i < s.len()
            invariant
                i <= s@.len(),
                values@ =~= known_values(s@.take(i as int)),
                forall|k: int| 0 <= k < i ==> s@[k] is Some,
            decreases s.len() - i,
        {
            match s[i] {
                Some(v) => values.push(v),
                None => {
                    return YesNoMaybe::Maybe;
                },
            }
            i = i + 1;
        }
        assert(s@.take(s@.len() as int) =~= s@);
        let holds = (self.pred)(values.as_slice());
        if holds {
            YesNoMaybe::Yes
        } else {
            YesNoMaybe::No
        }
    }
}

/// Alternatives that disagree at a position leave that position unknown.
pub proof fn lemma_or_disagreement_clears(n: nat, index: int, x: i32, y: i32)
    requires
        0 <= index < n,
        x != y,
    ensures
        pred_or(pred_singleton(n, index, x), pred_singleton(n, index, y))[index] is None,
        !all_known(pred_or(pred_singleton(n, index, x), pred_singleton(n, index, y))),
{
}

} // verus!
