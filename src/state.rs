use vstd::prelude::*;
use crate::table::{Partition, Table};

verus! {

/// A puzzle's own picture of an assignment, built by the caller: it is told the value of each
/// variable that is known, and renders itself for display.
pub trait State: Sized {
    fn set(&mut self, var: usize, val: i32);
}

/// The variables of `header` paired with the values of `tuple`.
pub open spec fn zip_pairs(header: Seq<usize>, tuple: Seq<i32>) -> Seq<(usize, i32)> {
    Seq::new(header.len(), |i: int| (header[i], tuple[i]))
}

/// The (variable, value) pairs fixed by the partitions that hold a single tuple, in order.
pub open spec fn known_pairs(parts: Seq<Partition>) -> Seq<(usize, i32)>
    decreases parts.len(),
{
    if parts.len() == 0 {
        Seq::empty()
    } else {
        known_pairs(parts.drop_last()) + if parts.last().tuples@.len() == 1 {
            zip_pairs(parts.last().header@, parts.last().tuples@[0]@)
        } else {
            Seq::empty()
        }
    }
}

impl Table {
    /// The value of every variable whose partition holds a single tuple.
    pub fn known_values(&self) -> (r: Vec<(usize, i32)>)
        requires
            self.wf(),
        ensures
            r@ == known_pairs(self.partitions@),
    {
        let mut out: Vec<(usize, i32)> = Vec::new();
        let mut p: usize = 0;
        while p < self.partitions.len()
            invariant
                p <= self.partitions@.len(),
                self.wf(),
                out@ == known_pairs(self.partitions@.take(p as int)),
            decreases self.partitions.len() - p,
        {
            let part = &self.partitions[p];
            let ghost before = out@;
            proof {
                assert(self.partitions@.take(p + 1).drop_last() =~= self.partitions@.take(p as int));
                assert(part.wf());
            }
            if part.tuples.len() == 1 {
                let tuple = &part.tuples[0];
                let mut c: usize = 0;
                while c < part.header.len()
                    invariant
                        c <= part.header@.len(),
                        tuple@.len() == part.header@.len(),
                        out@ == before + zip_pairs(part.header@, tuple@).take(c as int),
                    decreases part.header.len() - c,
                {
                    out.push((part.header[c], tuple[c]));
                    c = c + 1;
                    assert(out@ =~= before + zip_pairs(part.header@, tuple@).take(c as int));
                }
                assert(zip_pairs(part.header@, tuple@).take(part.header@.len() as int) =~= zip_pairs(part.header@, tuple@));
            } else {
                assert(out@ =~= before + Seq::<(usize, i32)>::empty());
            }
            p = p + 1;
        }
        assert(self.partitions@.take(self.partitions@.len() as int) =~= self.partitions@);
        out
    }

    /// Tells `state` the value of every variable that is known.
    pub fn into_state<S: State>(&self, state: S) -> S
        requires
            self.wf(),
    {
        let mut state = state;
        let known = self.known_values();
        let mut i: usize = 0;
        while i < known.len()
            invariant
                i <= known@.len(),
            decreases known.len() - i,
        {
            let (var, val) = known[i];
            state.set(var, val);
            i = i + 1;
        }
        state
    }
}

} // verus!
