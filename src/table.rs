use vstd::prelude::*;
use crate::sequence::sat_u128;

verus! {

/// A group of variables together with the joint values they may still take: one tuple per
/// alternative, one entry per variable of the header.
pub struct Partition {
    pub header: Vec<usize>,
    pub tuples: Vec<Vec<i32>>,
}

/// The joint state: the cross product of its partitions is what may still be.
pub struct Table {
    pub partitions: Vec<Partition>,
}

pub open spec fn rows_of(tuples: Seq<Vec<i32>>) -> Seq<Seq<i32>> {
    tuples.map_values(|t: Vec<i32>| t@)
}

/// The number of tuples of each partition.
pub open spec fn counts(parts: Seq<Partition>) -> Seq<nat> {
    parts.map_values(|p: Partition| p.tuples@.len())
}

pub open spec fn product(s: Seq<nat>) -> nat
    decreases s.len(),
{
    if s.len() == 0 { 1 } else { product(s.drop_last()) * s.last() }
}

pub open spec fn total(s: Seq<nat>) -> nat
    decreases s.len(),
{
    if s.len() == 0 { 0 } else { total(s.drop_last()) + s.last() }
}

/// Every tuple of `a` followed by every tuple of `b`, with `a`'s tuple in the outer position.
pub open spec fn cross(a: Seq<Seq<i32>>, b: Seq<Seq<i32>>) -> Seq<Seq<i32>>
    decreases a.len(),
{
    if a.len() == 0 {
        Seq::empty()
    } else {
        cross(a.drop_last(), b) + b.map_values(|t: Seq<i32>| a.last() + t)
    }
}

impl Partition {
    pub open spec fn rows(&self) -> Seq<Seq<i32>> {
        rows_of(self.tuples@)
    }

    /// At least one tuple, and each as long as the header.
    pub open spec fn wf(&self) -> bool {
        &&& self.tuples@.len() > 0
        &&& forall|k: int| 0 <= k < self.tuples@.len() ==> (#[trigger] self.tuples@[k])@.len() == self.header@.len()
    }

    pub fn duplicate(&self) -> (r: Partition)
        ensures
            r.header@ == self.header@,
            r.rows() == self.rows(),
            r.tuples@.len() == self.tuples@.len(),
            self.wf() ==> r.wf(),
    {
        let mut tuples: Vec<Vec<i32>> = Vec::new();
        let mut k: usize = 0;
        while k < self.tuples.len()
            invariant
                k <= self.tuples@.len(),
                rows_of(tuples@) == rows_of(self.tuples@.take(k as int)),
                tuples@.len() == k,
            decreases self.tuples.len() - k,
        {
            let ghost before = tuples@;
            tuples.push(copy_values(&self.tuples[k]));
            k = k + 1;
            assert(rows_of(tuples@) =~= rows_of(before).push(self.tuples@[k - 1]@));
            assert(self.tuples@.take(k as int) =~= self.tuples@.take(k - 1).push(self.tuples@[k - 1]));
            assert(rows_of(self.tuples@.take(k as int)) =~= rows_of(self.tuples@.take(k - 1)).push(self.tuples@[k - 1]@));
        }
        assert(self.tuples@.take(self.tuples@.len() as int) =~= self.tuples@);
        let r = Partition { header: copy_vars(&self.header), tuples };
        assert forall|k: int| 0 <= k < r.tuples@.len() implies r.tuples@[k]@ == self.tuples@[k]@ by {
            assert(rows_of(r.tuples@)[k] == rows_of(self.tuples@)[k]);
        }
        r
    }
}

pub(crate) fn copy_values(v: &Vec<i32>) -> (r: Vec<i32>)
    ensures
        r@ == v@,
{
    let mut out: Vec<i32> = Vec::new();
    let mut i: usize = 0;
    while i < v.len()
        invariant
            i <= v@.len(),
            out@ == v@.take(i as int),
        decreases v.len() - i,
    {
        out.push(v[i]);
        i = i + 1;
        assert(out@ =~= v@.take(i as int));
    }
    assert(v@.take(v@.len() as int) =~= v@);
    out
}

pub(crate) fn copy_vars(v: &Vec<usize>) -> (r: Vec<usize>)
    ensures
        r@ == v@,
{
    let mut out: Vec<usize> = Vec::new();
    let mut i: usize = 0;
    while i < v.len()
        invariant
            i <= v@.len(),
            out@ == v@.take(i as int),
        decreases v.len() - i,
    {
        out.push(v[i]);
        i = i + 1;
        assert(out@ =~= v@.take(i as int));
    }
    assert(v@.take(v@.len() as int) =~= v@);
    out
}

pub proof fn lemma_product_remove(s: Seq<nat>, k: int)
    requires
        0 <= k < s.len(),
    ensures
        product(s) == product(s.remove(k)) * s[k],
    decreases s.len(),
{
    if k == s.len() - 1 {
        assert(s.remove(k) =~= s.drop_last());
    } else {
        lemma_product_remove(s.drop_last(), k);
        assert(s.remove(k).drop_last() =~= s.drop_last().remove(k));
        assert(s.remove(k).last() == s.last());
        let a = product(s.drop_last().remove(k));
        assert(a * s[k] * s.last() == a * s.last() * s[k]) by (nonlinear_arith);
    }
}

proof fn lemma_cross_len(a: Seq<Seq<i32>>, b: Seq<Seq<i32>>)
    ensures
        cross(a, b).len() == a.len() * b.len(),
    decreases a.len(),
{
    if a.len() > 0 {
        lemma_cross_len(a.drop_last(), b);
        assert((a.len() - 1) * b.len() + b.len() == a.len() * b.len()) by (nonlinear_arith);
    }
}

/// The cross product of two partitions: headers concatenated, tuples paired in order.
fn cross_partitions(p: &Partition, q: &Partition) -> (r: Partition)
    requires
        p.wf(),
        q.wf(),
    ensures
        r.wf(),
        r.header@ == p.header@ + q.header@,
        r.rows() == cross(p.rows(), q.rows()),
        r.tuples@.len() == p.tuples@.len() * q.tuples@.len(),
{
    let mut header = copy_vars(&p.header);
    let mut h: usize = 0;
    while h < q.header.len()
        invariant
            h <= q.header@.len(),
            header@ == p.header@ + q.header@.take(h as int),
        decreases q.header.len() - h,
    {
        header.push(q.header[h]);
        h = h + 1;
        assert(header@ =~= p.header@ + q.header@.take(h as int));
    }
    assert(q.header@.take(q.header@.len() as int) =~= q.header@);
    let mut tuples: Vec<Vec<i32>> = Vec::new();
    let mut x: usize = 0;
    while x < p.tuples.len()
        invariant
            x <= p.tuples@.len(),
            p.wf(),
            q.wf(),
            header@ == p.header@ + q.header@,
            rows_of(tuples@) == cross(p.rows().take(x as int), q.rows()),
            forall|k: int| 0 <= k < tuples@.len() ==> (#[trigger] tuples@[k])@.len() == header@.len(),
        decreases p.tuples.len() - x,
    {
        let mut y: usize = 0;
        while y < q.tuples.len()
            invariant
                x < p.tuples@.len(),
                y <= q.tuples@.len(),
                p.wf(),
                q.wf(),
                header@ == p.header@ + q.header@,
                rows_of(tuples@) == cross(p.rows().take(x as int), q.rows()) + q.rows().take(y as int).map_values(|t: Seq<i32>| p.rows()[x as int] + t),
                forall|k: int| 0 <= k < tuples@.len() ==> (#[trigger] tuples@[k])@.len() == header@.len(),
            decreases q.tuples.len() - y,
        {
            let mut t = copy_values(&p.tuples[x]);
            let mut c: usize = 0;
            while c < q.tuples[y].len()
                invariant
                    x < p.tuples@.len(),
                    y < q.tuples@.len(),
                    c <= q.tuples@[y as int]@.len(),
                    t@ == p.tuples@[x as int]@ + q.tuples@[y as int]@.take(c as int),
                decreases q.tuples[y as int]@.len() - c,
            {
                t.push(q.tuples[y][c]);
                c = c + 1;
                assert(t@ =~= p.tuples@[x as int]@ + q.tuples@[y as int]@.take(c as int));
            }
            assert(q.tuples@[y as int]@.take(q.tuples@[y as int]@.len() as int) =~= q.tuples@[y as int]@);
            let ghost before = tuples@;
            tuples.push(t);
            y = y + 1;
            proof {
                assert(rows_of(tuples@) =~= rows_of(before).push(t@));
                assert(q.rows().take(y as int) =~= q.rows().take(y - 1).push(q.rows()[y - 1]));
                assert(p.tuples@[x as int]@.len() == p.header@.len());
                assert(q.tuples@[y - 1]@.len() == q.header@.len());
            }
        }
        proof {
            assert(q.rows().take(q.rows().len() as int) =~= q.rows());
            let a = p.rows().take(x + 1);
            assert(a.drop_last() =~= p.rows().take(x as int));
            assert(a.last() == p.rows()[x as int]);
        }
        x = x + 1;
    }
    assert(p.rows().take(p.rows().len() as int) =~= p.rows());
    proof {
        lemma_cross_len(p.rows(), q.rows());
    }
    Partition { header, tuples }
}

/// Every variable stands in exactly one place of one header.
pub open spec fn vars_unique(parts: Seq<Partition>) -> bool {
    forall|p1: int, i1: int, p2: int, i2: int|
        0 <= p1 < parts.len() && 0 <= p2 < parts.len() && 0 <= i1 < parts[p1].header@.len() && 0 <= i2
            < parts[p2].header@.len() && #[trigger] parts[p1].header@[i1] == #[trigger] parts[p2].header@[i2]
            ==> p1 == p2 && i1 == i2
}

pub open spec fn has_var(parts: Seq<Partition>, v: usize) -> bool {
    exists|p: int, i: int| 0 <= p < parts.len() && 0 <= i < parts[p].header@.len() && #[trigger] parts[p].header@[i] == v
}

pub open spec fn sat_usize(x: int) -> usize {
    if x > usize::MAX { usize::MAX } else { x as usize }
}

/// Where the `k`-th partition left after removing those at `lo < hi` stood before.
pub open spec fn kept_index(k: int, lo: int, hi: int) -> int {
    if k < lo { k } else if k < hi - 1 { k + 1 } else { k + 2 }
}

/// `new` is `old` with partitions `i` and `j` taken out and a partition of
/// `|tuples(i)| * |tuples(j)|` tuples put last.
pub open spec fn merged_counts(new: Seq<Partition>, old: Seq<Partition>, i: int, j: int) -> bool {
    &&& 0 <= i < old.len()
    &&& 0 <= j < old.len()
    &&& i != j
    &&& new.len() == old.len() - 1
    &&& new.drop_last() == old.remove(if i > j { i } else { j }).remove(if i < j { i } else { j })
    &&& new.last().tuples@.len() == old[i].tuples@.len() * old[j].tuples@.len()
}

/// `new` is `old` with partitions `i` and `j` replaced, last, by their cross product.
pub open spec fn merge_of(new: Seq<Partition>, old: Seq<Partition>, i: int, j: int) -> bool {
    &&& merged_counts(new, old, i, j)
    &&& new.last().header@ == old[i].header@ + old[j].header@
    &&& new.last().rows() == cross(old[i].rows(), old[j].rows())
}

/// `new` comes from `old` by merging two of its partitions.
pub open spec fn merge_step(new: Seq<Partition>, old: Seq<Partition>) -> bool {
    exists|i: int, j: int| #[trigger] merge_of(new, old, i, j)
}

/// Each table of `chain` comes from the one before by a merge.
pub open spec fn merge_chain(chain: Seq<Seq<Partition>>) -> bool {
    &&& chain.len() > 0
    &&& forall|k: int| 0 <= k < chain.len() - 1 ==> #[trigger] merge_step(chain[k + 1], chain[k])
}

/// `to` comes from `from` by zero or more merges.
pub open spec fn merges_to(to: Seq<Partition>, from: Seq<Partition>) -> bool {
    exists|chain: Seq<Seq<Partition>>| #[trigger] merge_chain(chain) && chain[0] == from && chain.last() == to
}

proof fn lemma_merges_to_refl(a: Seq<Partition>)
    ensures
        merges_to(a, a),
{
    assert(merge_chain(seq![a]));
}

proof fn lemma_merges_to_step(to: Seq<Partition>, mid: Seq<Partition>, from: Seq<Partition>, i: int, j: int)
    requires
        merges_to(mid, from),
        merge_of(to, mid, i, j),
    ensures
        merges_to(to, from),
{
    let c = choose|chain: Seq<Seq<Partition>>| #[trigger] merge_chain(chain) && chain[0] == from && chain.last() == mid;
    let c2 = c.push(to);
    assert forall|k: int| 0 <= k < c2.len() - 1 implies #[trigger] merge_step(c2[k + 1], c2[k]) by {
        if k < c.len() - 1 {
            assert(c2[k + 1] == c[k + 1] && c2[k] == c[k]);
        } else {
            assert(merge_of(c2[k + 1], c2[k], i, j));
        }
    }
    assert(merge_chain(c2));
}

/// Merging two partitions leaves the number of possible assignments exactly as it was.
pub proof fn lemma_merge_possibilities(new: Seq<Partition>, old: Seq<Partition>, i: int, j: int)
    requires
        merged_counts(new, old, i, j),
    ensures
        product(counts(new)) == product(counts(old)),
{
    let lo = if i < j { i } else { j };
    let hi = if i > j { i } else { j };
    let c = counts(old);
    lemma_product_remove(c, hi);
    lemma_product_remove(c.remove(hi), lo);
    assert(counts(new.drop_last()) =~= counts(new).drop_last());
    assert(counts(old.remove(hi)) =~= c.remove(hi));
    assert(counts(old.remove(hi).remove(lo)) =~= c.remove(hi).remove(lo));
    assert(counts(new).drop_last() =~= c.remove(hi).remove(lo));
    let x = c[lo];
    let y = c[hi];
    assert(x * y == y * x) by (nonlinear_arith);
    assert(counts(new).last() == x * y);
    let a = product(c.remove(hi).remove(lo));
    assert(a * x * y == a * (x * y)) by (nonlinear_arith);
}

#[verifier::rlimit(30)]
proof fn lemma_merge_facts(old_parts: Seq<Partition>, parts: Seq<Partition>, i: int, j: int, lo: int, hi: int)
    requires
        forall|p: int| 0 <= p < old_parts.len() ==> (#[trigger] old_parts[p]).wf(),
        vars_unique(old_parts),
        0 <= lo < hi < old_parts.len(),
        (i == lo && j == hi) || (i == hi && j == lo),
        parts.len() == old_parts.len() - 1,
        parts.drop_last() == old_parts.remove(hi).remove(lo),
        parts.last().wf(),
        parts.last().header@ == old_parts[i].header@ + old_parts[j].header@,
        parts.last().tuples@.len() == old_parts[i].tuples@.len() * old_parts[j].tuples@.len(),
    ensures
        forall|p: int| 0 <= p < parts.len() ==> (#[trigger] parts[p]).wf(),
        vars_unique(parts),
        product(counts(parts)) == product(counts(old_parts)),
{
    let rest = parts.drop_last();
    let n = rest.len() as int;
    assert forall|k: int| 0 <= k < n implies #[trigger] parts[k] == old_parts[kept_index(k, lo, hi)] by {
        assert(parts[k] == rest[k]);
    }
    lemma_merge_possibilities(parts, old_parts, i, j);
    assert forall|p: int| 0 <= p < parts.len() implies (#[trigger] parts[p]).wf() by {
        if p < n {
            assert(old_parts[kept_index(p, lo, hi)].wf());
        }
    }
    let li = old_parts[i].header@.len();
    assert forall|p1: int, i1: int, p2: int, i2: int|
        0 <= p1 < parts.len() && 0 <= p2 < parts.len() && 0 <= i1 < parts[p1].header@.len() && 0 <= i2
            < parts[p2].header@.len() && #[trigger] parts[p1].header@[i1] == #[trigger] parts[p2].header@[i2]
        implies p1 == p2 && i1 == i2 by {
        let (o1, j1) = if p1 < n { (kept_index(p1, lo, hi), i1) } else if i1 < li { (i, i1) } else { (j, i1 - li) };
        let (o2, j2) = if p2 < n { (kept_index(p2, lo, hi), i2) } else if i2 < li { (i, i2) } else { (j, i2 - li) };
        assert(parts[p1].header@[i1] == old_parts[o1].header@[j1]);
        assert(parts[p2].header@[i2] == old_parts[o2].header@[j2]);
    }
}

proof fn lemma_sat_mul(acc: u128, before: nat, n: u128)
    requires
        acc == sat_u128(before as int),
    ensures
        n != 0 && acc > u128::MAX / n ==> before * n > u128::MAX,
        !(n != 0 && acc > u128::MAX / n) ==> acc * n <= u128::MAX && acc * n == sat_u128((before * n) as int),
{
    if n != 0 {
        if acc > u128::MAX / n {
            assert(acc * n > u128::MAX) by (nonlinear_arith)
                requires acc > u128::MAX / n, n > 0;
            if before <= u128::MAX {
                assert(before * n > u128::MAX);
            } else {
                assert(before * n >= before) by (nonlinear_arith)
                    requires n > 0;
            }
        } else {
            assert(acc * n <= (u128::MAX / n) * n) by (nonlinear_arith)
                requires acc <= u128::MAX / n, n > 0;
            assert((u128::MAX / n) * n <= u128::MAX) by (nonlinear_arith)
                requires n > 0;
            if before > u128::MAX {
                assert(acc == u128::MAX);
                assert(n == 1) by (nonlinear_arith)
                    requires acc == u128::MAX, acc * n <= u128::MAX, n > 0;
                assert(before * n == before);
                assert(acc * n == acc);
            } else {
                assert(acc == before);
                assert(acc * n == before * n);
            }
        }
    } else {
        assert(before * n == 0) by (nonlinear_arith) requires n == 0;
        assert(acc * n == 0) by (nonlinear_arith) requires n == 0;
    }
}

impl Table {
    pub open spec fn wf(&self) -> bool {
        &&& forall|p: int| 0 <= p < self.partitions@.len() ==> (#[trigger] self.partitions@[p]).wf()
        &&& vars_unique(self.partitions@)
    }

    /// The number of joint assignments still possible.
    pub open spec fn possibilities_spec(&self) -> nat {
        product(counts(self.partitions@))
    }

    /// The number of tuples over all partitions.
    pub open spec fn size_spec(&self) -> nat {
        total(counts(self.partitions@))
    }

    pub fn new() -> (r: Table)
        ensures
            r.wf(),
            r.partitions@.len() == 0,
    {
        Table { partitions: Vec::new() }
    }

    /// Declares `var` with its domain, as a partition of its own with one tuple per value.
    pub fn add_column(&mut self, var: usize, values: &Vec<i32>)
        requires
            old(self).wf(),
            !has_var(old(self).partitions@, var),
            values@.len() > 0,
        ensures
            final(self).wf(),
            final(self).partitions@.len() == old(self).partitions@.len() + 1,
            final(self).partitions@.drop_last() == old(self).partitions@,
            final(self).partitions@.last().header@ == seq![var],
            final(self).partitions@.last().rows() == values@.map_values(|v: i32| seq![v]),
            final(self).possibilities_spec() == old(self).possibilities_spec() * values@.len(),
    {
        let mut tuples: Vec<Vec<i32>> = Vec::new();
        let mut k: usize = 0;
        while k < values.len()
            invariant
                k <= values@.len(),
                tuples@.len() == k,
                rows_of(tuples@) == values@.take(k as int).map_values(|v: i32| seq![v]),
            decreases values.len() - k,
        {
            let mut t: Vec<i32> = Vec::new();
            t.push(values[k]);
            let ghost before = tuples@;
            tuples.push(t);
            k = k + 1;
            assert(rows_of(tuples@) =~= rows_of(before).push(seq![values@[k - 1]]));
            assert(values@.take(k as int) =~= values@.take(k - 1).push(values@[k - 1]));
            assert(rows_of(tuples@) =~= values@.take(k as int).map_values(|v: i32| seq![v]));
        }
        assert(values@.take(values@.len() as int) =~= values@);
        let mut header: Vec<usize> = Vec::new();
        header.push(var);
        let part = Partition { header, tuples };
        assert forall|j: int| 0 <= j < part.tuples@.len() implies (#[trigger] part.tuples@[j])@.len() == part.header@.len() by {
            assert(rows_of(part.tuples@)[j] == seq![values@[j]]);
        }
        let ghost old_parts = self.partitions@;
        self.partitions.push(part);
        proof {
            assert(self.partitions@.drop_last() =~= old_parts);
            assert(counts(self.partitions@).drop_last() =~= counts(old_parts));
            assert forall|p1: int, i1: int, p2: int, i2: int|
                0 <= p1 < self.partitions@.len() && 0 <= p2 < self.partitions@.len() && 0 <= i1 < self.partitions@[p1].header@.len() && 0 <= i2
                    < self.partitions@[p2].header@.len() && #[trigger] self.partitions@[p1].header@[i1] == #[trigger] self.partitions@[p2].header@[i2]
                implies p1 == p2 && i1 == i2 by {
                let n = old_parts.len() as int;
                if p1 == n && p2 != n {
                    assert(old_parts[p2].header@[i2] == var);
                } else if p2 == n && p1 != n {
                    assert(old_parts[p1].header@[i1] == var);
                } else if p1 != n && p2 != n {
                    assert(old_parts[p1].header@[i1] == old_parts[p2].header@[i2]);
                }
            }
        }
    }

    /// Whether every partition is down to a single tuple, so that one assignment remains.
    pub fn is_solved(&self) -> (r: bool)
        ensures
            r == forall|p: int| 0 <= p < self.partitions@.len() ==> (#[trigger] self.partitions@[p]).tuples@.len() == 1,
    {
        let mut p: usize = 0;
        while p < self.partitions.len()
            invariant
                p <= self.partitions@.len(),
                forall|q: int| 0 <= q < p ==> (#[trigger] self.partitions@[q]).tuples@.len() == 1,
            decreases self.partitions.len() - p,
        {
            if self.partitions[p].tuples.len() != 1 {
                return false;
            }
            p = p + 1;
        }
        true
    }

    /// The number of tuples over all partitions, or `usize::MAX` if it is larger.
    pub fn size(&self) -> (r: usize)
        ensures
            r == sat_usize(self.size_spec() as int),
    {
        let mut acc: usize = 0;
        let mut p: usize = 0;
        while p < self.partitions.len()
            invariant
                p <= self.partitions@.len(),
                acc == sat_usize(total(counts(self.partitions@).take(p as int)) as int),
            decreases self.partitions.len() - p,
        {
            proof {
                let c = counts(self.partitions@);
                assert(c.take(p + 1).drop_last() =~= c.take(p as int));
            }
            let n = self.partitions[p].tuples.len();
            acc = if acc > usize::MAX - n { usize::MAX } else { acc + n };
            p = p + 1;
        }
        assert(counts(self.partitions@).take(self.partitions@.len() as int) =~= counts(self.partitions@));
        acc
    }

    /// The number of joint assignments still possible, or `u128::MAX` if it is larger.
    pub fn possibilities(&self) -> (r: u128)
        ensures
            r == sat_u128(self.possibilities_spec() as int),
    {
        let mut acc: u128 = 1;
        let mut p: usize = 0;
        while p < self.partitions.len()
            invariant
                p <= self.partitions@.len(),
                acc == sat_u128(product(counts(self.partitions@).take(p as int)) as int),
            decreases self.partitions.len() - p,
        {
            let ghost c = counts(self.partitions@);
            let ghost before = product(c.take(p as int));
            proof {
                assert(c.take(p + 1).drop_last() =~= c.take(p as int));
            }
            let n = self.partitions[p].tuples.len() as u128;
            proof {
                assert(product(c.take(p + 1)) == before * n);
            }
            proof {
                lemma_sat_mul(acc, before, n);
            }
            if n != 0 && acc > u128::MAX / n {
                acc = u128::MAX;
            } else {
                acc = acc * n;
            }
            p = p + 1;
        }
        assert(counts(self.partitions@).take(self.partitions@.len() as int) =~= counts(self.partitions@));
        acc
    }

    /// A deep copy.
    pub fn duplicate(&self) -> (r: Table)
        ensures
            r.partitions@.len() == self.partitions@.len(),
            forall|p: int| 0 <= p < r.partitions@.len() ==> (#[trigger] r.partitions@[p]).header@ == self.partitions@[p].header@
                && r.partitions@[p].rows() == self.partitions@[p].rows()
                && r.partitions@[p].tuples@.len() == self.partitions@[p].tuples@.len(),
            counts(r.partitions@) == counts(self.partitions@),
            self.wf() ==> r.wf(),
    {
        let mut parts: Vec<Partition> = Vec::new();
        let mut p: usize = 0;
        while p < self.partitions.len()
            invariant
                p <= self.partitions@.len(),
                parts@.len() == p,
                forall|q: int| 0 <= q < p ==> (#[trigger] parts@[q]).header@ == self.partitions@[q].header@
                    && parts@[q].rows() == self.partitions@[q].rows()
                    && parts@[q].tuples@.len() == self.partitions@[q].tuples@.len()
                    && (self.partitions@[q].wf() ==> parts@[q].wf()),
            decreases self.partitions.len() - p,
        {
            parts.push(self.partitions[p].duplicate());
            p = p + 1;
        }
        let r = Table { partitions: parts };
        assert(counts(r.partitions@) =~= counts(self.partitions@));
        r
    }

    /// Replaces partitions `i` and `j` by their cross product, placed last.
    pub fn merge(&mut self, i: usize, j: usize)
        requires
            old(self).wf(),
            i != j,
            i < old(self).partitions@.len(),
            j < old(self).partitions@.len(),
        ensures
            final(self).wf(),
            final(self).partitions@.len() == old(self).partitions@.len() - 1,
            final(self).possibilities_spec() == old(self).possibilities_spec(),
            final(self).partitions@.last().header@ == old(self).partitions@[i as int].header@ + old(self).partitions@[j as int].header@,
            final(self).partitions@.last().rows() == cross(old(self).partitions@[i as int].rows(), old(self).partitions@[j as int].rows()),
            final(self).partitions@.drop_last() == old(self).partitions@.remove(if i > j { i as int } else { j as int }).remove(
                if i < j { i as int } else { j as int }),
            merged_counts(final(self).partitions@, old(self).partitions@, i as int, j as int),
            merge_of(final(self).partitions@, old(self).partitions@, i as int, j as int),
    {
        let ghost old_parts = self.partitions@;
        let lo = if i < j { i } else { j };
        let hi = if i < j { j } else { i };
        let p_hi = self.partitions.remove(hi);
        let p_lo = self.partitions.remove(lo);
        let ghost rest = self.partitions@;
        let merged = if i < j { cross_partitions(&p_lo, &p_hi) } else { cross_partitions(&p_hi, &p_lo) };
        self.partitions.push(merged);
        proof {
            assert(rest =~= old_parts.remove(hi as int).remove(lo as int));
            assert(self.partitions@.drop_last() =~= rest);
            lemma_merge_facts(old_parts, self.partitions@, i as int, j as int, lo as int, hi as int);
        }
    }

    /// Merges all partitions that hold a single tuple into one.
    pub fn merge_constants(&mut self)
        requires
            old(self).wf(),
        ensures
            final(self).wf(),
            final(self).possibilities_spec() == old(self).possibilities_spec(),
            final(self).partitions@.len() <= old(self).partitions@.len(),
            forall|a: int, b: int| 0 <= a < b < final(self).partitions@.len() ==>
                !((#[trigger] final(self).partitions@[a]).tuples@.len() == 1 && (#[trigger] final(self).partitions@[b]).tuples@.len() == 1),
            merges_to(final(self).partitions@, old(self).partitions@),
    {
        proof {
            lemma_merges_to_refl(self.partitions@);
        }
        loop
            invariant
                merges_to(self.partitions@, old(self).partitions@),
                self.wf(),
                self.possibilities_spec() == old(self).possibilities_spec(),
                self.partitions@.len() <= old(self).partitions@.len(),
            decreases self.partitions@.len(),
        {
            let n = self.partitions.len();
            let mut first: usize = n;
            let mut second: usize = n;
            let mut k: usize = 0;
            while k < n
                invariant
                    n == self.partitions@.len(),
                    k <= n,
                    first <= n,
                    second <= n,
                    first < n ==> first < k && self.partitions@[first as int].tuples@.len() == 1,
                    second < n ==> first < second && second < k && self.partitions@[second as int].tuples@.len() == 1,
                    forall|a: int| 0 <= a < k && a < first ==> (#[trigger] self.partitions@[a]).tuples@.len() != 1,
                    second == n ==> forall|a: int| first < a < k ==> (#[trigger] self.partitions@[a]).tuples@.len() != 1,
                decreases n - k,
            {
                if self.partitions[k].tuples.len() == 1 {
                    if first == n {
                        first = k;
                    } else if second == n {
                        second = k;
                    }
                }
                k = k + 1;
            }
            if second == n {
                return;
            }
            let ghost mid = self.partitions@;
            self.merge(first, second);
            proof {
                lemma_merges_to_step(self.partitions@, mid, old(self).partitions@, first as int, second as int);
            }
        }
    }
}

} // verus!
