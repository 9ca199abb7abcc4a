use vstd::prelude::*;
use crate::logic::YesNoMaybe;
use crate::model::{
    and_opt, equiv, equiv_opt, lemma_and_f, lemma_equiv_transitive, lemma_or_f, lemma_single_f, lemma_verdict_f, or_opt,
    single_f, verdict_f,
};
use crate::rule::{Rule, Summary};
use crate::table::{
    copy_values, copy_vars, counts, lemma_merge_possibilities, merge_chain, merge_of, merge_step, merges_to, product, rows_of, total,
    Partition, Table,
};

verus! {

/// Reported when propagation empties a partition: the table as it stood when the rule was applied,
/// and that rule's kind and parameters.
pub struct Unsatisfiable {
    pub table: Table,
    pub name: &'static str,
    pub params: Vec<usize>,
}

/// What one application of a rule did.
#[derive(Debug, Clone, Copy, PartialEq, Eq, Structural)]
pub enum Outcome {
    /// The rule holds of every assignment left; nothing was changed.
    Satisfied,
    /// No tuple could be ruled out.
    Unchanged,
    /// Some tuples were ruled out.
    Narrowed,
}

/// `sub` is `sup` with some entries left out, the rest in their order.
pub open spec fn is_subseq(sub: Seq<Seq<i32>>, sup: Seq<Seq<i32>>) -> bool {
    exists|idx: Seq<int>| #[trigger] subseq_witness(sub, sup, idx)
}

pub open spec fn subseq_witness(sub: Seq<Seq<i32>>, sup: Seq<Seq<i32>>, idx: Seq<int>) -> bool {
    &&& idx.len() == sub.len()
    &&& forall|m: int| 0 <= m < idx.len() ==> 0 <= #[trigger] idx[m] < sup.len() && sub[m] == sup[idx[m]]
    &&& forall|m: int, n: int| 0 <= m < n < idx.len() ==> idx[m] < idx[n]
}

/// `new` has the partitions of `old`, with the same headers, each keeping some of its tuples in order.
pub open spec fn narrows(new: Seq<Partition>, old: Seq<Partition>) -> bool {
    &&& new.len() == old.len()
    &&& forall|p: int| 0 <= p < new.len() ==> (#[trigger] new[p]).header@ == old[p].header@
        && is_subseq(new[p].rows(), old[p].rows())
        && new[p].tuples@.len() <= old[p].tuples@.len()
}

pub proof fn lemma_product_monotone(a: Seq<nat>, b: Seq<nat>)
    requires
        a.len() == b.len(),
        forall|k: int| 0 <= k < a.len() ==> a[k] <= b[k],
    ensures
        product(a) <= product(b),
    decreases a.len(),
{
    if a.len() > 0 {
        lemma_product_monotone(a.drop_last(), b.drop_last());
        let x = product(a.drop_last());
        let y = product(b.drop_last());
        assert(x * a.last() <= y * b.last()) by (nonlinear_arith)
            requires x <= y, a.last() <= b.last();
    }
}

pub proof fn lemma_total_monotone(a: Seq<nat>, b: Seq<nat>)
    requires
        a.len() == b.len(),
        forall|k: int| 0 <= k < a.len() ==> a[k] <= b[k],
    ensures
        total(a) <= total(b),
        total(a) == total(b) ==> a == b,
    decreases a.len(),
{
    if a.len() > 0 {
        lemma_total_monotone(a.drop_last(), b.drop_last());
        if total(a) == total(b) {
            assert(a.drop_last() == b.drop_last());
            assert(a =~= b.drop_last().push(a.last()));
            assert(b =~= b.drop_last().push(b.last()));
        }
    } else {
        assert(a =~= b);
    }
}

/// Narrowing never adds assignments.
pub proof fn lemma_narrows_possibilities(new: Seq<Partition>, old: Seq<Partition>)
    requires
        narrows(new, old),
    ensures
        product(counts(new)) <= product(counts(old)),
        total(counts(new)) <= total(counts(old)),
{
    assert forall|k: int| 0 <= k < counts(new).len() implies counts(new)[k] <= counts(old)[k] by {
        assert(new[k].tuples@.len() <= old[k].tuples@.len());
    }
    lemma_product_monotone(counts(new), counts(old));
    lemma_total_monotone(counts(new), counts(old));
}

/// One step of solving: tuples dropped by propagation, or two partitions merged.
pub open spec fn solving_step(new: Seq<Partition>, old: Seq<Partition>) -> bool {
    narrows(new, old) || merge_step(new, old)
}

/// Each table of `chain` comes from the one before by a step of solving.
pub open spec fn step_chain(chain: Seq<Seq<Partition>>) -> bool {
    &&& chain.len() > 0
    &&& forall|k: int| 0 <= k < chain.len() - 1 ==> #[trigger] solving_step(chain[k + 1], chain[k])
}

/// `to` comes from `from` by zero or more steps of solving: it holds only assignments of `from`.
pub open spec fn reaches(to: Seq<Partition>, from: Seq<Partition>) -> bool {
    exists|chain: Seq<Seq<Partition>>| #[trigger] step_chain(chain) && chain[0] == from && chain.last() == to
}

/// Along any sequence of propagation and merge steps the number of possible assignments
/// never grows.
pub proof fn lemma_steps_never_add_possibilities(tables: Seq<Seq<Partition>>)
    requires
        step_chain(tables),
    ensures
        product(counts(tables.last())) <= product(counts(tables[0])),
    decreases tables.len(),
{
    if tables.len() > 1 {
        let prefix = tables.drop_last();
        assert forall|k: int| 0 <= k < prefix.len() - 1 implies #[trigger] solving_step(prefix[k + 1], prefix[k]) by {
            assert(prefix[k + 1] == tables[k + 1] && prefix[k] == tables[k]);
            assert(solving_step(tables[k + 1], tables[k]));
        }
        lemma_steps_never_add_possibilities(prefix);
        let n = tables.len() - 1;
        assert(solving_step(tables[n - 1 + 1], tables[n - 1]));
        if narrows(tables[n], tables[n - 1]) {
            lemma_narrows_possibilities(tables[n], tables[n - 1]);
        } else {
            let (i, j) = choose|i: int, j: int| #[trigger] merge_of(tables[n], tables[n - 1], i, j);
            lemma_merge_possibilities(tables[n], tables[n - 1], i, j);
        }
    }
}

/// A table reached by solving holds no more possible assignments than the one it came from.
pub proof fn lemma_reaches_possibilities(to: Seq<Partition>, from: Seq<Partition>)
    requires
        reaches(to, from),
    ensures
        product(counts(to)) <= product(counts(from)),
{
    let c = choose|chain: Seq<Seq<Partition>>| #[trigger] step_chain(chain) && chain[0] == from && chain.last() == to;
    lemma_steps_never_add_possibilities(c);
}

pub proof fn lemma_reaches_refl(a: Seq<Partition>)
    ensures
        reaches(a, a),
{
    assert(step_chain(seq![a]));
}

pub proof fn lemma_reaches_step(to: Seq<Partition>, mid: Seq<Partition>, from: Seq<Partition>)
    requires
        reaches(mid, from),
        solving_step(to, mid),
    ensures
        reaches(to, from),
{
    let c = choose|chain: Seq<Seq<Partition>>| #[trigger] step_chain(chain) && chain[0] == from && chain.last() == mid;
    let c2 = c.push(to);
    assert forall|k: int| 0 <= k < c2.len() - 1 implies #[trigger] solving_step(c2[k + 1], c2[k]) by {
        if k < c.len() - 1 {
            assert(c2[k + 1] == c[k + 1] && c2[k] == c[k]);
        }
    }
    assert(step_chain(c2));
}

pub proof fn lemma_reaches_merges(to: Seq<Partition>, mid: Seq<Partition>, from: Seq<Partition>)
    requires
        reaches(mid, from),
        merges_to(to, mid),
    ensures
        reaches(to, from),
{
    let c1 = choose|chain: Seq<Seq<Partition>>| #[trigger] step_chain(chain) && chain[0] == from && chain.last() == mid;
    let c2 = choose|chain: Seq<Seq<Partition>>| #[trigger] merge_chain(chain) && chain[0] == mid && chain.last() == to;
    let c = c1 + c2.drop_first();
    assert forall|k: int| 0 <= k < c.len() - 1 implies #[trigger] solving_step(c[k + 1], c[k]) by {
        if k < c1.len() - 1 {
            assert(c[k + 1] == c1[k + 1] && c[k] == c1[k]);
        } else {
            let m = k - (c1.len() - 1);
            assert(c[k] == c2[m]);
            assert(c[k + 1] == c2[m + 1]);
            assert(merge_step(c2[m + 1], c2[m]));
        }
    }
    if c2.len() == 1 {
        assert(c =~= c1);
    }
    assert(step_chain(c));
}

fn join_and<F: Fn(&[i32]) -> bool>(rule: &Rule<F>, a: Option<Summary>, b: Option<Summary>, am: Ghost<Option<Summary>>, bm: Ghost<Option<Summary>>) -> (r: Option<Summary>)
    requires
        rule.fits_opt(a),
        rule.fits_opt(b),
        equiv_opt(a, am@),
        equiv_opt(b, bm@),
    ensures
        rule.fits_opt(r),
        equiv_opt(r, and_opt(*rule, am@, bm@)),
        (a is Some || b is Some) ==> r is Some,
{
    match (a, b) {
        (Some(x), Some(y)) => {
            let z = rule.and(x, y);
            proof {
                lemma_and_f(*rule, x, y, am@->Some_0, bm@->Some_0, z);
            }
            Some(z)
        },
        (Some(x), None) => Some(x),
        (None, y) => y,
    }
}

fn join_or<F: Fn(&[i32]) -> bool>(rule: &Rule<F>, a: Option<Summary>, b: Option<Summary>, am: Ghost<Option<Summary>>, bm: Ghost<Option<Summary>>) -> (r: Option<Summary>)
    requires
        rule.fits_opt(a),
        rule.fits_opt(b),
        equiv_opt(a, am@),
        equiv_opt(b, bm@),
    ensures
        rule.fits_opt(r),
        equiv_opt(r, or_opt(*rule, am@, bm@)),
{
    match (a, b) {
        (Some(x), Some(y)) => {
            let z = rule.or(x, y);
            proof {
                lemma_or_f(*rule, x, y, am@->Some_0, bm@->Some_0, z);
            }
            Some(z)
        },
        (Some(x), None) => Some(x),
        (None, y) => y,
    }
}

proof fn lemma_same_shape_fits<F: Fn(&[i32]) -> bool>(rule: Rule<F>, a: Summary, b: Summary)
    requires
        rule.fits(a),
        b.same_shape(a),
    ensures
        rule.fits(b),
        equiv(b, a),
{
}

fn dup<F: Fn(&[i32]) -> bool>(rule: &Rule<F>, a: &Option<Summary>) -> (r: Option<Summary>)
    requires
        rule.fits_opt(*a),
    ensures
        rule.fits_opt(r),
        a is Some <==> r is Some,
        forall|m: Option<Summary>| equiv_opt(*a, m) ==> equiv_opt(r, m),
{
    match a {
        Some(x) => {
            let y = x.duplicate();
            proof {
                lemma_same_shape_fits(*rule, *x, y);
                assert forall|m: Option<Summary>| equiv_opt(*a, m) implies equiv_opt(Some(y), m) by {
                    lemma_equiv_transitive(y, *x, m->Some_0);
                }
            }
            Some(y)
        },
        None => None,
    }
}

/// Whether some variable of `header` is among `params`.
pub open spec fn touches_spec(params: Seq<usize>, header: Seq<usize>) -> bool {
    exists|c: int, k: int| 0 <= c < header.len() && 0 <= k < params.len() && #[trigger] header[c] == #[trigger] params[k]
}

/// Whether some variable of `header` is among `params`.
fn touches(params: &Vec<usize>, header: &Vec<usize>) -> (r: bool)
    ensures
        r == touches_spec(params@, header@),
{
    let mut c: usize = 0;
    while c < header.len()
        invariant
            c <= header@.len(),
            forall|c2: int, k: int| 0 <= c2 < c && 0 <= k < params@.len() ==> #[trigger] header@[c2] != #[trigger] params@[k],
        decreases header.len() - c,
    {
        let mut k: usize = 0;
        while k < params.len()
            invariant
                c < header@.len(),
                k <= params@.len(),
                forall|c2: int, k2: int| 0 <= c2 < c && 0 <= k2 < params@.len() ==> #[trigger] header@[c2] != #[trigger] params@[k2],
                forall|k2: int| 0 <= k2 < k ==> header@[c as int] != #[trigger] params@[k2],
            decreases params.len() - k,
        {
            if header[c] == params[k] {
                return true;
            }
            k = k + 1;
        }
        c = c + 1;
    }
    false
}

/// The second entry of the first pair whose first entry is `v`; `v` itself without one.
pub open spec fn first_match(pairs: Seq<(i32, i32)>, v: i32) -> i32
    decreases pairs.len(),
{
    if pairs.len() == 0 {
        v
    } else if pairs[0].0 == v {
        pairs[0].1
    } else {
        first_match(pairs.drop_first(), v)
    }
}

/// The value that `v` stands for at position `k`.
pub open spec fn remapped(maps: Seq<Vec<(i32, i32)>>, k: int, v: i32) -> i32 {
    if 0 <= k < maps.len() { first_match(maps[k]@, v) } else { v }
}

/// Translates `value` for position `k`: the first pair of `maps[k]` whose first entry is
/// `value` gives the result; without such a pair (or without `maps[k]`), `value` itself.
pub fn remap(maps: &Vec<Vec<(i32, i32)>>, k: usize, value: i32) -> (r: i32)
    ensures
        r == remapped(maps@, k as int, value),
{
    if k >= maps.len() {
        return value;
    }
    let pairs: &Vec<(i32, i32)> = &maps[k];
    let ghost ps = maps@[k as int]@;
    assert(ps.subrange(0, ps.len() as int) =~= ps);
    let mut m: usize = 0;
    while m < pairs.len()
        invariant
            m <= ps.len(),
            pairs@ == ps,
            k < maps@.len(),
            ps == maps@[k as int]@,
            first_match(ps, value) == first_match(ps.subrange(m as int, ps.len() as int), value),
        decreases pairs.len() - m,
    {
        proof {
            assert(ps.subrange(m as int, ps.len() as int).drop_first() =~= ps.subrange(m + 1, ps.len() as int));
        }
        if pairs[m].0 == value {
            return pairs[m].1;
        }
        m = m + 1;
    }
    value
}

/// The summary of column `c` of `tuple`, joined into `acc` for each of the first `k` parameters
/// that name that column's variable.
pub open spec fn params_fold<F: Fn(&[i32]) -> bool>(
    rule: Rule<F>,
    params: Seq<usize>,
    maps: Seq<Vec<(i32, i32)>>,
    header: Seq<usize>,
    tuple: Seq<i32>,
    acc: Option<Summary>,
    c: int,
    k: int,
) -> Option<Summary>
    decreases k,
{
    if k <= 0 {
        acc
    } else {
        let prev = params_fold(rule, params, maps, header, tuple, acc, c, k - 1);
        if header[c] == params[k - 1] {
            and_opt(rule, prev, Some(single_f(rule, k - 1, remapped(maps, k - 1, tuple[c]))))
        } else {
            prev
        }
    }
}

/// What the first `c` columns of `tuple` say for the rule.
pub open spec fn tuple_fold<F: Fn(&[i32]) -> bool>(
    rule: Rule<F>,
    params: Seq<usize>,
    maps: Seq<Vec<(i32, i32)>>,
    header: Seq<usize>,
    tuple: Seq<i32>,
    c: int,
) -> Option<Summary>
    decreases c,
{
    if c <= 0 {
        None
    } else {
        params_fold(rule, params, maps, header, tuple, tuple_fold(rule, params, maps, header, tuple, c - 1), c - 1, params.len() as int)
    }
}

/// The summary of one tuple: the singletons of its (translated) values at the rule's positions, joined.
fn tuple_summary<F: Fn(&[i32]) -> bool>(rule: &Rule<F>, params: &Vec<usize>, maps: &Vec<Vec<(i32, i32)>>, header: &Vec<usize>, tuple: &Vec<i32>) -> (r: Option<Summary>)
    requires
        rule.wf(),
        rule.arity_ok(params@.len()),
        tuple@.len() == header@.len(),
    ensures
        rule.fits_opt(r),
        equiv_opt(r, tuple_fold(*rule, params@, maps@, header@, tuple@, header@.len() as int)),
{
    let mut acc: Option<Summary> = None;
    let mut c: usize = 0;
    while c < header.len()
        invariant
            c <= header@.len(),
            rule.wf(),
            rule.arity_ok(params@.len()),
            tuple@.len() == header@.len(),
            rule.fits_opt(acc),
            equiv_opt(acc, tuple_fold(*rule, params@, maps@, header@, tuple@, c as int)),
        decreases header.len() - c,
    {
        let ghost start = tuple_fold(*rule, params@, maps@, header@, tuple@, c as int);
        let mut k: usize = 0;
        while k < params.len()
            invariant
                c < header@.len(),
                k <= params@.len(),
                rule.wf(),
                rule.arity_ok(params@.len()),
                tuple@.len() == header@.len(),
                rule.fits_opt(acc),
                equiv_opt(acc, params_fold(*rule, params@, maps@, header@, tuple@, start, c as int, k as int)),
            decreases params.len() - k,
        {
            if header[c] == params[k] {
                let v = remap(maps, k, tuple[c]);
                let s = rule.singleton(k, v);
                proof {
                    lemma_single_f(*rule, k as int, v, s);
                }
                let ghost prev = params_fold(*rule, params@, maps@, header@, tuple@, start, c as int, k as int);
                acc = join_and(rule, acc, Some(s), Ghost(prev), Ghost(Some(single_f(*rule, k as int, v))));
            }
            k = k + 1;
        }
        c = c + 1;
    }
    acc
}

/// What tuple `t` of `part` says for the rule.
pub open spec fn row_model<F: Fn(&[i32]) -> bool>(rule: Rule<F>, params: Seq<usize>, maps: Seq<Vec<(i32, i32)>>, part: Partition, t: int) -> Option<Summary> {
    tuple_fold(rule, params, maps, part.header@, part.tuples@[t]@, part.header@.len() as int)
}

/// The first `t` tuples of `part` as alternatives.
pub open spec fn rows_or<F: Fn(&[i32]) -> bool>(rule: Rule<F>, params: Seq<usize>, maps: Seq<Vec<(i32, i32)>>, part: Partition, t: int) -> Option<Summary>
    decreases t,
{
    if t <= 0 {
        None
    } else {
        or_opt(rule, rows_or(rule, params, maps, part, t - 1), row_model(rule, params, maps, part, t - 1))
    }
}

/// What a partition says for the rule: its tuples as alternatives, if it holds one of the rule's
/// variables.
pub open spec fn agg_model<F: Fn(&[i32]) -> bool>(rule: Rule<F>, params: Seq<usize>, maps: Seq<Vec<(i32, i32)>>, part: Partition) -> Option<Summary> {
    if touches_spec(params, part.header@) {
        rows_or(rule, params, maps, part, part.tuples@.len() as int)
    } else {
        None
    }
}

/// The first `q` partitions but the one at `skip`, joined.
pub open spec fn and_aggs<F: Fn(&[i32]) -> bool>(rule: Rule<F>, params: Seq<usize>, maps: Seq<Vec<(i32, i32)>>, parts: Seq<Partition>, skip: int, q: int) -> Option<Summary>
    decreases q,
{
    if q <= 0 {
        None
    } else {
        let prev = and_aggs(rule, params, maps, parts, skip, q - 1);
        if q - 1 == skip { prev } else { and_opt(rule, prev, agg_model(rule, params, maps, parts[q - 1])) }
    }
}

/// Whether tuple `t` of partition `p` stays: the rule does not speak of the partition, or its
/// tuple together with all the other partitions is not found impossible.
pub open spec fn keeps<F: Fn(&[i32]) -> bool>(rule: Rule<F>, params: Seq<usize>, maps: Seq<Vec<(i32, i32)>>, parts: Seq<Partition>, p: int, t: int) -> bool {
    !touches_spec(params, parts[p].header@) || match and_opt(
        rule,
        row_model(rule, params, maps, parts[p], t),
        and_aggs(rule, params, maps, parts, p, parts.len() as int),
    ) {
        Some(s) => verdict_f(rule, s) != YesNoMaybe::No,
        None => true,
    }
}

/// The tuples among the first `t` of partition `p` that stay, in order.
pub open spec fn kept_rows<F: Fn(&[i32]) -> bool>(rule: Rule<F>, params: Seq<usize>, maps: Seq<Vec<(i32, i32)>>, parts: Seq<Partition>, p: int, t: int) -> Seq<Seq<i32>>
    decreases t,
{
    if t <= 0 {
        Seq::empty()
    } else {
        kept_rows(rule, params, maps, parts, p, t - 1) + if keeps(rule, params, maps, parts, p, t - 1) {
            seq![parts[p].rows()[t - 1]]
        } else {
            Seq::empty()
        }
    }
}

/// What all the partitions that the rule speaks of say, joined.
pub open spec fn whole_model<F: Fn(&[i32]) -> bool>(rule: Rule<F>, params: Seq<usize>, maps: Seq<Vec<(i32, i32)>>, parts: Seq<Partition>) -> Option<Summary> {
    and_aggs(rule, params, maps, parts, -1, parts.len() as int)
}

/// The tuples of partition `p` that stay, in order.
pub open spec fn all_kept<F: Fn(&[i32]) -> bool>(rule: Rule<F>, params: Seq<usize>, maps: Seq<Vec<(i32, i32)>>, parts: Seq<Partition>, p: int) -> Seq<Seq<i32>> {
    kept_rows(rule, params, maps, parts, p, parts[p].tuples@.len() as int)
}

/// Whether a tuple with summary `own`, together with `others`, may still satisfy the rule.
fn may_hold<F: Fn(&[i32]) -> bool>(rule: &Rule<F>, own: &Option<Summary>, others: &Option<Summary>, om: Ghost<Option<Summary>>, otm: Ghost<Option<Summary>>) -> (r: bool)
    requires
        rule.wf(),
        rule.fits_opt(*own),
        rule.fits_opt(*others),
        equiv_opt(*own, om@),
        equiv_opt(*others, otm@),
    ensures
        r == match and_opt(*rule, om@, otm@) {
            Some(s) => verdict_f(*rule, s) != YesNoMaybe::No,
            None => true,
        },
{
    let joined = join_and(rule, dup(rule, own), dup(rule, others), om, otm);
    match joined {
        Some(s) => {
            let v = rule.check(&s);
            proof {
                lemma_verdict_f(*rule, s, and_opt(*rule, om@, otm@)->Some_0, v);
            }
            v != YesNoMaybe::No
        },
        None => true,
    }
}

impl Table {
    /// Applies one rule over the variables `params`, whose values are first translated by
    /// `maps` (see `remap`): tuples that cannot take part in any assignment satisfying the rule
    /// are dropped from the partitions those variables stand in.
    ///
    /// The contract says exactly what happens: the rule
    /// is reported satisfied when the joined summary of all its partitions checks `Yes`;
    /// otherwise a tuple stays when its partition does not hold one of the rule's variables, or
    /// when its own summary joined with those of the other partitions does not check `No`; and
    /// the result is an error exactly when some partition would keep no tuple.
    pub fn apply_constraint<F: Fn(&[i32]) -> bool>(&mut self, params: &Vec<usize>, maps: &Vec<Vec<(i32, i32)>>, rule: &Rule<F>) -> (r: Result<Outcome, Unsatisfiable>)
        requires
            old(self).wf(),
            rule.wf(),
            rule.arity_ok(params@.len()),
        ensures
            final(self).wf(),
            narrows(final(self).partitions@, old(self).partitions@),
            r is Ok && r->Ok_0 != Outcome::Narrowed ==> final(self).partitions@ == old(self).partitions@,
            r is Ok && r->Ok_0 == Outcome::Narrowed ==> final(self).size_spec() < old(self).size_spec(),
            forall|p: int| 0 <= p < old(self).partitions@.len() && !touches_spec(params@, old(self).partitions@[p].header@)
                ==> (#[trigger] final(self).partitions@[p]).rows() == old(self).partitions@[p].rows(),
            whole_model(*rule, params@, maps@, old(self).partitions@) is None ==> r matches Ok(Outcome::Unchanged),
            ((r matches Ok(Outcome::Satisfied)) <==> (whole_model(*rule, params@, maps@, old(self).partitions@) matches Some(
                s) && verdict_f(*rule, s) == YesNoMaybe::Yes)),
            (whole_model(*rule, params@, maps@, old(self).partitions@) matches Some(s) && verdict_f(*rule, s)
                != YesNoMaybe::Yes) ==> {
                &&& (r is Err <==> exists|p: int| 0 <= p < old(self).partitions@.len()
                    && (#[trigger] all_kept(*rule, params@, maps@, old(self).partitions@, p)).len() == 0)
                &&& r is Ok ==> forall|p: int| 0 <= p < old(self).partitions@.len()
                    ==> (#[trigger] final(self).partitions@[p]).rows() == all_kept(*rule, params@, maps@, old(self).partitions@, p)
            },
            r is Err ==> final(self).possibilities_spec() == old(self).possibilities_spec(),
            r matches Err(u) ==> u.params@ == params@ && u.name == rule.name_spec() && u.table.wf()
                && u.table.partitions@ == old(self).partitions@
                && exists|p: int| 0 <= p < old(self).partitions@.len()
                    && (#[trigger] all_kept(*rule, params@, maps@, old(self).partitions@, p)).len() == 0,
    {
        let n = self.partitions.len();
        // Per partition: the summaries of its tuples and their disjunction.
        let mut row_sums: Vec<Vec<Option<Summary>>> = Vec::new();
        let mut aggs: Vec<Option<Summary>> = Vec::new();
        let mut touched: Vec<bool> = Vec::new();
        let mut p: usize = 0;
        while p < n
            invariant
                n == self.partitions@.len(),
                p <= n,
                touched@.len() == p,
                forall|q: int| 0 <= q < p ==> touched@[q] == touches_spec(params@, (#[trigger] self.partitions@[q]).header@),
                self.wf(),
                rule.wf(),
                rule.arity_ok(params@.len()),
                row_sums@.len() == p,
                aggs@.len() == p,
                forall|q: int| 0 <= q < p ==> (#[trigger] row_sums@[q])@.len() == self.partitions@[q].tuples@.len(),
                forall|q: int, t: int| 0 <= q < p && 0 <= t < row_sums@[q]@.len() ==> rule.fits_opt(#[trigger] row_sums@[q]@[t]),
                forall|q: int| 0 <= q < p ==> rule.fits_opt(#[trigger] aggs@[q]),
                forall|q: int| 0 <= q < p ==> equiv_opt(#[trigger] aggs@[q], agg_model(*rule, params@, maps@, self.partitions@[q])),
                forall|q: int, t: int| 0 <= q < p && 0 <= t < row_sums@[q]@.len() && touched@[q] ==> equiv_opt(
                    #[trigger] row_sums@[q]@[t], row_model(*rule, params@, maps@, self.partitions@[q], t)),
            decreases n - p,
        {
            let part = &self.partitions[p];
            let mut sums: Vec<Option<Summary>> = Vec::new();
            let mut agg: Option<Summary> = None;
            let touching = touches(params, &part.header);
            touched.push(touching);
            if touching {
                let mut t: usize = 0;
                while t < part.tuples.len()
                    invariant
                        part == self.partitions@[p as int],
                        part.wf(),
                        rule.wf(),
                        rule.arity_ok(params@.len()),
                        t <= part.tuples@.len(),
                        sums@.len() == t,
                        forall|u: int| 0 <= u < t ==> rule.fits_opt(#[trigger] sums@[u]),
                        rule.fits_opt(agg),
                        equiv_opt(agg, rows_or(*rule, params@, maps@, *part, t as int)),
                        forall|u: int| 0 <= u < t ==> equiv_opt(#[trigger] sums@[u], row_model(*rule, params@, maps@, *part, u)),
                    decreases part.tuples.len() - t,
                {
                    let s = tuple_summary(rule, params, maps, &part.header, &part.tuples[t]);
                    let s2 = dup(rule, &s);
                    agg = join_or(rule, agg, s2, Ghost(rows_or(*rule, params@, maps@, *part, t as int)), Ghost(row_model(*rule, params@, maps@, *part, t as int)));
                    sums.push(s);
                    t = t + 1;
                }
            } else {
                let mut t: usize = 0;
                while t < part.tuples.len()
                    invariant
                        t <= part.tuples@.len(),
                        sums@.len() == t,
                        forall|u: int| 0 <= u < t ==> (#[trigger] sums@[u]) is None,
                    decreases part.tuples.len() - t,
                {
                    sums.push(None);
                    t = t + 1;
                }
            }
            row_sums.push(sums);
            aggs.push(agg);
            p = p + 1;
        }

        // The joint summary of every partition the rule touches.
        let mut whole: Option<Summary> = None;
        let mut q: usize = 0;
        while q < n
            invariant
                n == aggs@.len(),
                q <= n,
                forall|q2: int| 0 <= q2 < n ==> rule.fits_opt(#[trigger] aggs@[q2]),
                rule.fits_opt(whole),
                forall|q2: int| 0 <= q2 < n ==> equiv_opt(#[trigger] aggs@[q2], agg_model(*rule, params@, maps@, self.partitions@[q2])),
                equiv_opt(whole, and_aggs(*rule, params@, maps@, self.partitions@, -1, q as int)),
            decreases n - q,
        {
            whole = join_and(rule, whole, dup(rule, &aggs[q]), Ghost(and_aggs(*rule, params@, maps@, self.partitions@, -1, q as int)),
                Ghost(agg_model(*rule, params@, maps@, self.partitions@[q as int])));
            q = q + 1;
        }
        proof {
            lemma_narrows_refl(self.partitions@);
        }
        let ghost wm = whole_model(*rule, params@, maps@, self.partitions@);
        match &whole {
            Some(s) => {
                let v = rule.check(s);
                proof {
                    lemma_verdict_f(*rule, *s, wm->Some_0, v);
                }
                if v == YesNoMaybe::Yes {
                    return Ok(Outcome::Satisfied);
                }
            },
            None => {
                return Ok(Outcome::Unchanged);
            },
        }

        // For each partition, the tuples that may still hold given all the others.
        let mut kept_all: Vec<Vec<Vec<i32>>> = Vec::new();
        let ghost mut witnesses: Seq<Seq<int>> = Seq::empty();
        let mut removed = false;
        let mut p: usize = 0;
        while p < n
            invariant
                n == self.partitions@.len(),
                n == row_sums@.len(),
                n == aggs@.len(),
                p <= n,
                self.wf(),
                rule.wf(),
                forall|q: int| 0 <= q < n ==> (#[trigger] row_sums@[q])@.len() == self.partitions@[q].tuples@.len(),
                forall|q: int, t: int| 0 <= q < n && 0 <= t < row_sums@[q]@.len() ==> rule.fits_opt(#[trigger] row_sums@[q]@[t]),
                forall|q: int| 0 <= q < n ==> rule.fits_opt(#[trigger] aggs@[q]),
                kept_all@.len() == p,
                witnesses.len() == p,
                touched@.len() == n,
                forall|q: int| 0 <= q < n ==> touched@[q] == touches_spec(params@, (#[trigger] self.partitions@[q]).header@),
                forall|q: int| 0 <= q < p && !touched@[q] ==> rows_of((#[trigger] kept_all@[q])@) == self.partitions@[q].rows(),
                forall|q: int| 0 <= q < p ==> subseq_witness(rows_of((#[trigger] kept_all@[q])@), self.partitions@[q].rows(), witnesses[q]),
                forall|q: int| 0 <= q < p ==> (#[trigger] kept_all@[q])@.len() <= self.partitions@[q].tuples@.len(),
                forall|q: int| 0 <= q < p ==> (#[trigger] kept_all@[q])@.len() > 0,
                forall|q: int, t: int| 0 <= q < p && 0 <= t < kept_all@[q]@.len() ==> (#[trigger] kept_all@[q]@[t])@.len() == self.partitions@[q].header@.len(),
                !removed ==> forall|q: int| 0 <= q < p ==> (#[trigger] kept_all@[q])@.len() == self.partitions@[q].tuples@.len(),
                removed ==> exists|q: int| 0 <= q < p && (#[trigger] kept_all@[q])@.len() < self.partitions@[q].tuples@.len(),
                forall|q2: int| 0 <= q2 < n ==> equiv_opt(#[trigger] aggs@[q2], agg_model(*rule, params@, maps@, self.partitions@[q2])),
                forall|q: int, t: int| 0 <= q < n && 0 <= t < row_sums@[q]@.len() && touched@[q] ==> equiv_opt(
                    #[trigger] row_sums@[q]@[t], row_model(*rule, params@, maps@, self.partitions@[q], t)),
                forall|q: int| 0 <= q < p ==> rows_of((#[trigger] kept_all@[q])@)
                    == kept_rows(*rule, params@, maps@, self.partitions@, q, self.partitions@[q].tuples@.len() as int),
                forall|q: int| 0 <= q < p && (#[trigger] kept_all@[q])@.len() == self.partitions@[q].tuples@.len()
                    ==> rows_of(kept_all@[q]@) == self.partitions@[q].rows(),
                (whole_model(*rule, params@, maps@, self.partitions@) matches Some(s) && verdict_f(*rule, s)
                    != YesNoMaybe::Yes),
                whole_model(*rule, params@, maps@, self.partitions@) is Some,
                self.partitions@ == old(self).partitions@,
            decreases n - p,
        {
            let mut others: Option<Summary> = None;
            let mut q: usize = 0;
            while q < n
                invariant
                    n == aggs@.len(),
                    q <= n,
                    forall|q2: int| 0 <= q2 < n ==> rule.fits_opt(#[trigger] aggs@[q2]),
                    rule.fits_opt(others),
                    forall|q2: int| 0 <= q2 < n ==> equiv_opt(#[trigger] aggs@[q2], agg_model(*rule, params@, maps@, self.partitions@[q2])),
                    equiv_opt(others, and_aggs(*rule, params@, maps@, self.partitions@, p as int, q as int)),
                decreases n - q,
            {
                if q != p {
                    others = join_and(rule, others, dup(rule, &aggs[q]), Ghost(and_aggs(*rule, params@, maps@, self.partitions@, p as int, q as int)),
                        Ghost(agg_model(*rule, params@, maps@, self.partitions@[q as int])));
                }
                q = q + 1;
            }
            let part = &self.partitions[p];
            let sums = &row_sums[p];
            let touching = touched[p];
            let mut kept: Vec<Vec<i32>> = Vec::new();
            let ghost mut idx: Seq<int> = Seq::empty();
            let mut t: usize = 0;
            while t < part.tuples.len()
                invariant
                    part == self.partitions@[p as int],
                    part.wf(),
                    rule.wf(),
                    sums@.len() == part.tuples@.len(),
                    forall|u: int| 0 <= u < sums@.len() ==> rule.fits_opt(#[trigger] sums@[u]),
                    rule.fits_opt(others),
                    t <= part.tuples@.len(),
                    kept@.len() <= t,
                    idx.len() == kept@.len(),
                    forall|m: int| 0 <= m < idx.len() ==> 0 <= #[trigger] idx[m] < t && rows_of(kept@)[m] == part.rows()[idx[m]],
                    forall|m: int, m2: int| 0 <= m < m2 < idx.len() ==> idx[m] < idx[m2],
                    forall|m: int| 0 <= m < kept@.len() ==> (#[trigger] kept@[m])@.len() == part.header@.len(),
                    !touching ==> rows_of(kept@) == part.rows().take(t as int),
                    kept@.len() == t ==> rows_of(kept@) == part.rows().take(t as int),
                    touching == touches_spec(params@, part.header@),
                    touching ==> forall|u: int| 0 <= u < sums@.len() ==> equiv_opt(#[trigger] sums@[u], row_model(*rule, params@, maps@, *part, u)),
                    equiv_opt(others, and_aggs(*rule, params@, maps@, self.partitions@, p as int, n as int)),
                    n == self.partitions@.len(),
                    p < n,
                    rows_of(kept@) == kept_rows(*rule, params@, maps@, self.partitions@, p as int, t as int),
                decreases part.tuples.len() - t,
            {
                let keep = !touching || may_hold(rule, &sums[t], &others, Ghost(row_model(*rule, params@, maps@, *part, t as int)),
                    Ghost(and_aggs(*rule, params@, maps@, self.partitions@, p as int, n as int)));
                proof {
                    assert(keep == keeps(*rule, params@, maps@, self.partitions@, p as int, t as int));
                }
                let ghost before = kept@;
                if keep {
                    let ghost before = kept@;
                    kept.push(copy_values(&part.tuples[t]));
                    proof {
                        assert(rows_of(kept@) =~= rows_of(before).push(part.rows()[t as int]));
                        assert(part.rows().take(t + 1) =~= part.rows().take(t as int).push(part.rows()[t as int]));
                        assert(self.partitions@[p as int].rows()[t as int] == part.rows()[t as int]);
                        idx = idx.push(t as int);
                        assert forall|m: int| 0 <= m < idx.len() implies 0 <= #[trigger] idx[m] < t + 1 && rows_of(kept@)[m] == part.rows()[idx[m]] by {
                            if m < idx.len() - 1 {
                                assert(rows_of(kept@)[m] == rows_of(before)[m]);
                            }
                        }
                    }
                }
                proof {
                    if !keep {
                        assert(rows_of(kept@) == rows_of(before) + Seq::<Seq<i32>>::empty());
                    }
                }
                t = t + 1;
            }
            assert(part.rows().take(part.tuples@.len() as int) =~= part.rows());
            if kept.len() == 0 {
                proof {
                    assert(all_kept(*rule, params@, maps@, self.partitions@, p as int).len() == 0);
                }
                let mut snapshot = self.duplicate();
                std::mem::swap(self, &mut snapshot);
                proof {
                    lemma_narrows_copy(self.partitions@, snapshot.partitions@);
                    lemma_counts_copy(self.partitions@, snapshot.partitions@);
                }
                let mut ps: Vec<usize> = Vec::new();
                let mut k: usize = 0;
                while k < params.len()
                    invariant
                        k <= params@.len(),
                        ps@ == params@.take(k as int),
                    decreases params.len() - k,
                {
                    ps.push(params[k]);
                    k = k + 1;
                    assert(ps@ =~= params@.take(k as int));
                }
                assert(params@.take(params@.len() as int) =~= params@);
                return Err(Unsatisfiable { table: snapshot, name: rule.name(), params: ps });
            }
            let fewer = kept.len() < part.tuples.len();
            let ghost was_removed = removed;
            let ghost prev_kept = kept_all@;
            if fewer {
                removed = true;
            }
            kept_all.push(kept);
            proof {
                if was_removed {
                    let q0 = choose|q: int| 0 <= q < p && (#[trigger] prev_kept[q])@.len() < self.partitions@[q].tuples@.len();
                    assert(kept_all@[q0] == prev_kept[q0]);
                }
                if fewer {
                    assert(kept_all@[p as int]@.len() < self.partitions@[p as int].tuples@.len());
                }
            }
            proof {
                witnesses = witnesses.push(idx);
            }
            p = p + 1;
        }
        let ghost old_parts = self.partitions@;
        proof {
            assert forall|q: int| 0 <= q < n implies (#[trigger] all_kept(*rule, params@, maps@, old_parts, q)).len() != 0 by {
                assert(rows_of(kept_all@[q]@).len() == kept_all@[q]@.len());
            }
        }
        if !removed {
            proof {
                lemma_narrows_refl(self.partitions@);
                assert forall|q: int| 0 <= q < n implies (#[trigger] self.partitions@[q]).rows() == all_kept(*rule, params@, maps@, old_parts, q) by {
                    assert(kept_all@[q]@.len() == self.partitions@[q].tuples@.len());
                }
            }
            return Ok(Outcome::Unchanged);
        }
        self.replace_tuples(kept_all, Ghost(witnesses));
        proof {
            assert forall|q: int| 0 <= q < n implies (#[trigger] self.partitions@[q]).rows() == all_kept(*rule, params@, maps@, old_parts, q) by {
                assert(self.partitions@[q].rows() == rows_of(kept_all@[q]@));
            }
            lemma_narrows_possibilities(self.partitions@, old_parts);
            let q = choose|q: int| 0 <= q < n && (#[trigger] kept_all@[q])@.len() < old_parts[q].tuples@.len();
            assert(counts(self.partitions@)[q] < counts(old_parts)[q]);
            if total(counts(self.partitions@)) == total(counts(old_parts)) {
                lemma_total_monotone_eq(self.partitions@, old_parts);
            }
        }
        Ok(Outcome::Narrowed)
    }
}

/// Narrowing twice is narrowing.
pub proof fn lemma_narrows_trans(c: Seq<Partition>, b: Seq<Partition>, a: Seq<Partition>)
    requires
        narrows(b, a),
        narrows(c, b),
    ensures
        narrows(c, a),
{
    assert forall|p: int| 0 <= p < c.len() implies (#[trigger] c[p]).header@ == a[p].header@
        && is_subseq(c[p].rows(), a[p].rows()) && c[p].tuples@.len() <= a[p].tuples@.len() by {
        assert(b[p].header@ == a[p].header@);
        assert(is_subseq(b[p].rows(), a[p].rows()));
        assert(is_subseq(c[p].rows(), b[p].rows()));
        let w1 = choose|idx: Seq<int>| #[trigger] subseq_witness(b[p].rows(), a[p].rows(), idx);
        let w2 = choose|idx: Seq<int>| #[trigger] subseq_witness(c[p].rows(), b[p].rows(), idx);
        let w = Seq::new(w2.len(), |m: int| w1[w2[m]]);
        assert forall|m: int, n: int| 0 <= m < n < w.len() implies w[m] < w[n] by {
            assert(w2[m] < w2[n]);
        }
        assert forall|m: int| 0 <= m < w.len() implies 0 <= #[trigger] w[m] < a[p].rows().len() && c[p].rows()[m] == a[p].rows()[w[m]] by {
            assert(0 <= w2[m] < b[p].rows().len());
        }
        assert(subseq_witness(c[p].rows(), a[p].rows(), w));
    }
}

/// A copy, partition by partition, narrows the original.
pub proof fn lemma_narrows_copy(new: Seq<Partition>, old: Seq<Partition>)
    requires
        new.len() == old.len(),
        forall|p: int| 0 <= p < new.len() ==> (#[trigger] new[p]).header@ == old[p].header@ && new[p].rows() == old[p].rows()
            && new[p].tuples@.len() == old[p].tuples@.len(),
    ensures
        narrows(new, old),
{
    assert forall|q: int| 0 <= q < new.len() implies is_subseq(new[q].rows(), old[q].rows()) by {
        let w = Seq::new(new[q].rows().len(), |m: int| m);
        assert(subseq_witness(new[q].rows(), old[q].rows(), w));
    }
}

proof fn lemma_counts_copy(new: Seq<Partition>, old: Seq<Partition>)
    requires
        new.len() == old.len(),
        forall|p: int| 0 <= p < new.len() ==> (#[trigger] new[p]).tuples@.len() == old[p].tuples@.len(),
    ensures
        counts(new) == counts(old),
{
    assert(counts(new) =~= counts(old));
}

pub proof fn lemma_narrows_refl(parts: Seq<Partition>)
    ensures
        narrows(parts, parts),
{
    assert forall|q: int| 0 <= q < parts.len() implies is_subseq(parts[q].rows(), parts[q].rows()) by {
        let w = Seq::new(parts[q].rows().len(), |m: int| m);
        assert(subseq_witness(parts[q].rows(), parts[q].rows(), w));
    }
}

proof fn lemma_total_monotone_eq(new: Seq<Partition>, old: Seq<Partition>)
    requires
        narrows(new, old),
        total(counts(new)) == total(counts(old)),
    ensures
        counts(new) == counts(old),
{
    assert forall|k: int| 0 <= k < counts(new).len() implies counts(new)[k] <= counts(old)[k] by {
        assert(new[k].tuples@.len() <= old[k].tuples@.len());
    }
    lemma_total_monotone(counts(new), counts(old));
}

impl Table {
    /// Puts `kept[p]` in place of the tuples of partition `p`, for every `p`.
    fn replace_tuples(&mut self, kept: Vec<Vec<Vec<i32>>>, witnesses: Ghost<Seq<Seq<int>>>)
        requires
            old(self).wf(),
            kept@.len() == old(self).partitions@.len(),
            witnesses@.len() == kept@.len(),
            forall|q: int| 0 <= q < kept@.len() ==> subseq_witness(rows_of((#[trigger] kept@[q])@), old(self).partitions@[q].rows(), witnesses@[q]),
            forall|q: int| 0 <= q < kept@.len() ==> (#[trigger] kept@[q])@.len() <= old(self).partitions@[q].tuples@.len(),
            forall|q: int| 0 <= q < kept@.len() ==> (#[trigger] kept@[q])@.len() > 0,
            forall|q: int, t: int| 0 <= q < kept@.len() && 0 <= t < kept@[q]@.len() ==> (#[trigger] kept@[q]@[t])@.len() == old(self).partitions@[q].header@.len(),
        ensures
            final(self).wf(),
            narrows(final(self).partitions@, old(self).partitions@),
            forall|q: int| 0 <= q < kept@.len() ==> (#[trigger] final(self).partitions@[q]).tuples@.len() == kept@[q]@.len(),
            forall|q: int| 0 <= q < kept@.len() ==> (#[trigger] final(self).partitions@[q]).rows() == rows_of(kept@[q]@),
    {
        let ghost all = kept@;
        let mut kept = kept;
        let n = self.partitions.len();
        let mut p: usize = n;
        while p > 0
            invariant
                p <= n,
                n == old(self).partitions@.len(),
                n == self.partitions@.len(),
                all.len() == n,
                kept@ == all.take(p as int),
                forall|q: int| 0 <= q < p ==> (#[trigger] self.partitions@[q]) == old(self).partitions@[q],
                forall|q: int| p <= q < n ==> (#[trigger] self.partitions@[q]).header@ == old(self).partitions@[q].header@
                    && self.partitions@[q].tuples@ == all[q]@,
            decreases p,
        {
            p = p - 1;
            let tuples = kept.pop().unwrap();
            assert(kept@ =~= all.take(p as int));
            let header = copy_vars(&self.partitions[p].header);
            self.partitions.set(p, Partition { header, tuples });
        }
        proof {
            let new = self.partitions@;
            let old_parts = old(self).partitions@;
            assert forall|q: int| 0 <= q < n implies (#[trigger] new[q]).wf() by {
                assert(all[q]@.len() > 0);
                assert forall|t: int| 0 <= t < new[q].tuples@.len() implies (#[trigger] new[q].tuples@[t])@.len() == new[q].header@.len() by {
                    assert(all[q]@[t]@.len() == old_parts[q].header@.len());
                }
            }
            assert forall|p1: int, i1: int, p2: int, i2: int|
                0 <= p1 < new.len() && 0 <= p2 < new.len() && 0 <= i1 < new[p1].header@.len() && 0 <= i2
                    < new[p2].header@.len() && #[trigger] new[p1].header@[i1] == #[trigger] new[p2].header@[i2]
                implies p1 == p2 && i1 == i2 by {
                assert(old_parts[p1].header@[i1] == old_parts[p2].header@[i2]);
            }
            assert forall|q: int| 0 <= q < n implies (#[trigger] new[q]).header@ == old_parts[q].header@
                && is_subseq(new[q].rows(), old_parts[q].rows())
                && new[q].tuples@.len() <= old_parts[q].tuples@.len() by {
                assert(subseq_witness(new[q].rows(), old_parts[q].rows(), witnesses@[q]));
            }
        }
    }
}

} // verus!
