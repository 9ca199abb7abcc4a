use vstd::prelude::*;
use crate::table::Partition;

verus! {

/// Each table of `chain` comes from the one before by a `step`.
pub open spec fn chain_by(chain: Seq<Seq<Partition>>, step: spec_fn(Seq<Partition>, Seq<Partition>) -> bool) -> bool {
    &&& chain.len() > 0
    &&& forall|k: int| 0 <= k < chain.len() - 1 ==> #[trigger] step(chain[k + 1], chain[k])
}

/// `to` comes from `from` by zero or more `step`s.
pub open spec fn reaches_by(to: Seq<Partition>, from: Seq<Partition>, step: spec_fn(Seq<Partition>, Seq<Partition>) -> bool) -> bool {
    exists|chain: Seq<Seq<Partition>>| #[trigger] chain_by(chain, step) && chain[0] == from && chain.last() == to
}

pub proof fn lemma_reaches_by_refl(a: Seq<Partition>, step: spec_fn(Seq<Partition>, Seq<Partition>) -> bool)
    ensures
        reaches_by(a, a, step),
{
    assert(chain_by(seq![a], step));
}

pub proof fn lemma_reaches_by_step(
    to: Seq<Partition>,
    mid: Seq<Partition>,
    from: Seq<Partition>,
    step: spec_fn(Seq<Partition>, Seq<Partition>) -> bool,
)
    requires
        reaches_by(mid, from, step),
        step(to, mid),
    ensures
        reaches_by(to, from, step),
{
    let c = choose|chain: Seq<Seq<Partition>>| #[trigger] chain_by(chain, step) && chain[0] == from && chain.last() == mid;
    let c2 = c.push(to);
    assert forall|k: int| 0 <= k < c2.len() - 1 implies #[trigger] step(c2[k + 1], c2[k]) by {
        if k < c.len() - 1 {
            assert(c2[k + 1] == c[k + 1] && c2[k] == c[k]);
        }
    }
    assert(chain_by(c2, step));
}

pub proof fn lemma_reaches_by_trans(
    to: Seq<Partition>,
    mid: Seq<Partition>,
    from: Seq<Partition>,
    step: spec_fn(Seq<Partition>, Seq<Partition>) -> bool,
)
    requires
        reaches_by(mid, from, step),
        reaches_by(to, mid, step),
    ensures
        reaches_by(to, from, step),
{
    let c1 = choose|chain: Seq<Seq<Partition>>| #[trigger] chain_by(chain, step) && chain[0] == from && chain.last() == mid;
    let c2 = choose|chain: Seq<Seq<Partition>>| #[trigger] chain_by(chain, step) && chain[0] == mid && chain.last() == to;
    let c = c1 + c2.drop_first();
    assert forall|k: int| 0 <= k < c.len() - 1 implies #[trigger] step(c[k + 1], c[k]) by {
        if k < c1.len() - 1 {
            assert(c[k + 1] == c1[k + 1] && c[k] == c1[k]);
        } else {
            let m = k - (c1.len() - 1);
            assert(c[k] == c2[m]);
            assert(c[k + 1] == c2[m + 1]);
        }
    }
    if c2.len() == 1 {
        assert(c =~= c1);
    }
    assert(chain_by(c, step));
}

/// A chain of narrower steps is also a chain of wider ones.
pub proof fn lemma_reaches_by_weaken(
    to: Seq<Partition>,
    from: Seq<Partition>,
    s1: spec_fn(Seq<Partition>, Seq<Partition>) -> bool,
    s2: spec_fn(Seq<Partition>, Seq<Partition>) -> bool,
)
    requires
        reaches_by(to, from, s1),
        forall|a: Seq<Partition>, b: Seq<Partition>| #[trigger] s1(a, b) ==> s2(a, b),
    ensures
        reaches_by(to, from, s2),
{
    let c = choose|chain: Seq<Seq<Partition>>| #[trigger] chain_by(chain, s1) && chain[0] == from && chain.last() == to;
    assert forall|k: int| 0 <= k < c.len() - 1 implies #[trigger] s2(c[k + 1], c[k]) by {
        assert(s1(c[k + 1], c[k]));
    }
    assert(chain_by(c, s2));
}

} // verus!
