use vstd::prelude::*;
use bitvec::vec::BitVec;
use crate::logic::YesNoMaybe;

verus! {

/// A fixed-length vector of bits, kept in a `bitvec::vec::BitVec`; `bits_of` gives its bits in
/// index order.
#[verifier::external_body]
pub struct Bits {
    v: BitVec,
}

/// The bits held.
pub uninterp spec fn bits_of(b: Bits) -> Seq<bool>;

/// Relies on `BitVec::repeat`: `len` bits, all cleared.
#[verifier::external_body]
fn bits_zeros(len: usize) -> (r: Bits)
    ensures
        bits_of(r) == Seq::new(len as nat, |i: int| false),
{
    Bits { v: BitVec::repeat(false, len) }
}

/// Relies on `BitSlice::set`: writes one bit in bounds and leaves the others.
#[verifier::external_body]
fn bits_set(b: &mut Bits, index: usize)
    requires
        index < bits_of(*old(b)).len(),
    ensures
        bits_of(*final(b)) == bits_of(*old(b)).update(index as int, true),
{
    b.v.set(index, true)
}

/// Relies on `BitVec`'s `&` on two vectors of one length: bitwise conjunction.
#[verifier::external_body]
fn bits_and(a: Bits, b: Bits) -> (r: Bits)
    requires
        bits_of(a).len() == bits_of(b).len(),
    ensures
        bits_of(r) == Seq::new(bits_of(a).len(), |i: int| bits_of(a)[i] && bits_of(b)[i]),
{
    Bits { v: a.v & b.v }
}

/// Relies on `BitVec`'s `|` on two vectors of one length: bitwise disjunction.
#[verifier::external_body]
fn bits_or(a: Bits, b: Bits) -> (r: Bits)
    requires
        bits_of(a).len() == bits_of(b).len(),
    ensures
        bits_of(r) == Seq::new(bits_of(a).len(), |i: int| bits_of(a)[i] || bits_of(b)[i]),
{
    Bits { v: a.v | b.v }
}

/// Relies on `BitSlice::count_ones`: the number of set bits.
#[verifier::external_body]
fn bits_count_ones(b: &Bits) -> (r: usize)
    ensures
        r == ones(bits_of(*b)),
{
    b.v.count_ones()
}

/// Relies on `BitVec::clone`: the same bits.
#[verifier::external_body]
fn bits_clone(b: &Bits) -> (r: Bits)
    ensures
        bits_of(r) == bits_of(*b),
{
    Bits { v: b.v.clone() }
}

/// The number of `true` entries.
pub open spec fn ones(s: Seq<bool>) -> nat
    decreases s.len(),
{
    if s.len() == 0 {
        0
    } else {
        ones(s.drop_last()) + (if s.last() { 1nat } else { 0nat })
    }
}

pub open spec fn sat_u128(x: int) -> u128 {
    if x > u128::MAX { u128::MAX } else { x as u128 }
}

/// The sequences of the list that may still match, and the number of alternatives that were joined.
pub struct SeqSet {
    pub set: Bits,
    pub count: u128,
}

impl SeqSet {
    pub fn clone(&self) -> (r: SeqSet)
        ensures
            bits_of(r.set) == bits_of(self.set),
            r.count == self.count,
    {
        SeqSet { set: bits_clone(&self.set), count: self.count }
    }

    /// The number of sequences that may still match.
    pub fn count_ones(&self) -> (r: usize)
        ensures
            r == ones(bits_of(self.set)),
    {
        bits_count_ones(&self.set)
    }
}

/// The constraint that the values at its positions, in order, form one of a list of sequences.
#[derive(Debug, Clone)]
pub struct AllowedSeq {
    pub seq_len: usize,
    pub allowed_seqs: Vec<Vec<i32>>,
}

impl AllowedSeq {
    pub open spec fn wf(&self) -> bool {
        forall|i: int| 0 <= i < self.allowed_seqs@.len() ==> #[trigger] self.allowed_seqs@[i]@.len() == self.seq_len
    }

    /// The list must hold sequences of length `seq_len` only.
    pub fn new(seq_len: usize, allowed_seqs: Vec<Vec<i32>>) -> (r: AllowedSeq)
        requires
            forall|i: int| 0 <= i < allowed_seqs@.len() ==> #[trigger] allowed_seqs@[i]@.len() == seq_len,
        ensures
            r.wf(),
            r.seq_len == seq_len,
            r.allowed_seqs@ == allowed_seqs@,
    {
        AllowedSeq { seq_len, allowed_seqs }
    }

    /// The sequences whose entry at `index` is `value`.
    pub fn singleton(&self, index: usize, value: i32) -> (r: SeqSet)
        requires
            self.wf(),
            index < self.seq_len,
        ensures
            bits_of(r.set) == Seq::new(self.allowed_seqs@.len(), |i: int| self.allowed_seqs@[i]@[index as int] == value),
            r.count == 1,
    {
        let n = self.allowed_seqs.len();
        let mut set = bits_zeros(n);
        let mut i: usize = 0;
        while i < n
            invariant
                i <= n,
                n == self.allowed_seqs@.len(),
                self.wf(),
                index < self.seq_len,
                bits_of(set).len() == n,
                forall|k: int| 0 <= k < n ==> #[trigger] bits_of(set)[k] == (k < i && self.allowed_seqs@[k]@[index as int] == value),
            decreases n - i,
        {
            if self.allowed_seqs[i][index] == value {
                bits_set(&mut set, i);
            }
            i = i + 1;
        }
        let r = SeqSet { set, count: 1 };
        assert(bits_of(r.set) =~= Seq::new(self.allowed_seqs@.len(), |i: int| self.allowed_seqs@[i]@[index as int] == value));
        r
    }

    pub fn and(&self, a: SeqSet, b: SeqSet) -> (r: SeqSet)
        requires
            bits_of(a.set).len() == bits_of(b.set).len(),
        ensures
            bits_of(r.set) == Seq::new(bits_of(a.set).len(), |i: int| bits_of(a.set)[i] && bits_of(b.set)[i]),
            r.count == sat_u128(a.count * b.count),
    {
        let count = if b.count != 0 && a.count > u128::MAX / b.count {
            u128::MAX
        } else {
            proof {
                if b.count != 0 {
                    assert(a.count * b.count <= (u128::MAX / b.count) * b.count) by (nonlinear_arith)
                        requires a.count <= u128::MAX / b.count, b.count > 0;
                    assert((u128::MAX / b.count) * b.count <= u128::MAX) by (nonlinear_arith)
                        requires b.count > 0;
                }
            }
            a.count * b.count
        };
        proof {
            if b.count != 0 && a.count > u128::MAX / b.count {
                assert(a.count * b.count > u128::MAX) by (nonlinear_arith)
                    requires a.count > u128::MAX / b.count, b.count > 0;
            }
        }
        SeqSet { set: bits_and(a.set, b.set), count }
    }

    pub fn or(&self, a: SeqSet, b: SeqSet) -> (r: SeqSet)
        requires
            bits_of(a.set).len() == bits_of(b.set).len(),
        ensures
            bits_of(r.set) == Seq::new(bits_of(a.set).len(), |i: int| bits_of(a.set)[i] || bits_of(b.set)[i]),
            r.count == sat_u128(a.count + b.count),
    {
        let count = if a.count > u128::MAX - b.count { u128::MAX } else { a.count + b.count };
        SeqSet { set: bits_or(a.set, b.set), count }
    }

    /// `No` when no sequence may match; `Yes` when as many may match as alternatives were joined.
    pub fn check(&self, s: &SeqSet) -> (r: YesNoMaybe)
        ensures
            r == (if ones(bits_of(s.set)) == 0 {
                YesNoMaybe::No
            } else if ones(bits_of(s.set)) == s.count {
                YesNoMaybe::Yes
            } else {
                YesNoMaybe::Maybe
            }),
    {
        let n = s.count_ones();
        if n == 0 {
            YesNoMaybe::No
        } else if n as u128 == s.count {
            YesNoMaybe::Yes
        } else {
            YesNoMaybe::Maybe
        }
    }
}

} // verus!
