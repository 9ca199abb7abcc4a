use vstd::prelude::*;
use crate::logic::YesNoMaybe;
use crate::model::verdict_f;
use crate::propagate::{
    all_kept, lemma_narrows_copy, lemma_narrows_possibilities, lemma_narrows_refl, lemma_narrows_trans, lemma_reaches_merges,
    lemma_reaches_possibilities, lemma_reaches_refl, lemma_reaches_step, narrows, reaches, whole_model, Outcome, Unsatisfiable,
};
use crate::rule::Rule;
use crate::table::{counts, has_var, merge_chain, merge_step, merges_to, product, Partition, Table};
use crate::chain::{
    chain_by, lemma_reaches_by_refl, lemma_reaches_by_step, lemma_reaches_by_trans, lemma_reaches_by_weaken, reaches_by,
};

verus! {

/// A rule together with the variables it speaks of, in order, and per position a translation
/// of values applied before the rule sees them (see `remap`).
pub struct Constraint<F: Fn(&[i32]) -> bool> {
    pub params: Vec<usize>,
    pub value_maps: Vec<Vec<(i32, i32)>>,
    pub rule: Rule<F>,
}

/// Configuration options. They only ask a front end for diagnostics; solving ignores them.
#[derive(Debug, Clone, Copy, PartialEq, Eq, Structural)]
pub struct Config {
    /// Log after each step that's taken
    pub log_steps: bool,
    /// Log the list of constraints before solving
    pub log_constraints: bool,
    /// Log when a constraint is completed
    pub log_completed: bool,
    /// Log how long each step took
    pub log_elapsed: bool,
    /// Log intermediate states (these can be very large!)
    pub log_states: bool,
}

impl Config {
    pub fn new() -> (r: Config)
        ensures
            !r.log_steps && !r.log_constraints && !r.log_completed && !r.log_elapsed && !r.log_states,
    {
        Config { log_steps: false, log_constraints: false, log_completed: false, log_elapsed: false, log_states: false }
    }
}

impl Default for Config {
    fn default() -> (r: Config)
        ensures
            !r.log_steps && !r.log_constraints && !r.log_completed && !r.log_elapsed && !r.log_states,
    {
        Config::new()
    }
}

pub open spec fn constraints_ok<F: Fn(&[i32]) -> bool>(cs: Seq<Constraint<F>>) -> bool {
    forall|i: int| 0 <= i < cs.len() ==> (#[trigger] cs[i]).rule.wf() && cs[i].rule.arity_ok(cs[i].params@.len())
}

/// The same partitions, with the same headers, in the same order.
pub open spec fn same_headers(a: Table, b: Table) -> bool {
    &&& a.partitions@.len() == b.partitions@.len()
    &&& forall|p: int| 0 <= p < a.partitions@.len() ==> (#[trigger] a.partitions@[p]).header@ == b.partitions@[p].header@
}

/// The rule's joined summary over the whole table checks `Yes`: it holds of every assignment left.
pub open spec fn satisfied_on<F: Fn(&[i32]) -> bool>(c: Constraint<F>, parts: Seq<Partition>) -> bool {
    whole_model(c.rule, c.params@, c.value_maps@, parts) matches Some(s) && verdict_f(c.rule, s) == YesNoMaybe::Yes
}

/// `new` is `old` with every partition cut down to the tuples that `c` keeps.
pub open spec fn keeps_step<F: Fn(&[i32]) -> bool>(new: Seq<Partition>, old: Seq<Partition>, c: Constraint<F>) -> bool {
    &&& new.len() == old.len()
    &&& forall|p: int| 0 <= p < new.len() ==> (#[trigger] new[p]).header@ == old[p].header@
        && new[p].rows() == all_kept(c.rule, c.params@, c.value_maps@, old, p)
}

/// `new` comes from `old` by applying one rule that is not marked in `done0`.
pub open spec fn propagation_step<F: Fn(&[i32]) -> bool>(new: Seq<Partition>, old: Seq<Partition>, cs: Seq<Constraint<F>>, done0: Seq<bool>) -> bool {
    exists|i: int| 0 <= i < cs.len() && !done0[i] && #[trigger] keeps_step(new, old, cs[i])
}

/// `new` has the same headers and tuples as `old`.
pub open spec fn copy_step(new: Seq<Partition>, old: Seq<Partition>) -> bool {
    &&& new.len() == old.len()
    &&& forall|p: int| 0 <= p < new.len() ==> (#[trigger] new[p]).header@ == old[p].header@ && new[p].rows() == old[p].rows()
        && new[p].tuples@.len() == old[p].tuples@.len()
}

pub open spec fn prop_rel<F: Fn(&[i32]) -> bool>(cs: Seq<Constraint<F>>, done0: Seq<bool>) -> spec_fn(Seq<Partition>, Seq<Partition>) -> bool {
    |new: Seq<Partition>, old: Seq<Partition>| propagation_step(new, old, cs, done0)
}

pub open spec fn copy_rel() -> spec_fn(Seq<Partition>, Seq<Partition>) -> bool {
    |new: Seq<Partition>, old: Seq<Partition>| copy_step(new, old)
}

/// The steps of solving: applying an open rule, merging two partitions, or copying the table.
pub open spec fn solve_rel<F: Fn(&[i32]) -> bool>(cs: Seq<Constraint<F>>, done0: Seq<bool>) -> spec_fn(Seq<Partition>, Seq<Partition>) -> bool {
    |new: Seq<Partition>, old: Seq<Partition>| propagation_step(new, old, cs, done0) || merge_step(new, old) || copy_step(new, old)
}

/// Every flag set in `done` but not in `done0` belongs to a rule that checked `Yes` on a table
/// lying between `from` and `cur` by `step`s.
pub open spec fn flags_from_yes<F: Fn(&[i32]) -> bool>(
    cs: Seq<Constraint<F>>,
    done0: Seq<bool>,
    done: Seq<bool>,
    from: Seq<Partition>,
    cur: Seq<Partition>,
    step: spec_fn(Seq<Partition>, Seq<Partition>) -> bool,
) -> bool {
    forall|i: int| 0 <= i < cs.len() && #[trigger] done[i] && !done0[i] ==> exists|t: Seq<Partition>|
        reaches_by(t, from, step) && reaches_by(cur, t, step) && #[trigger] satisfied_on(cs[i], t)
}

pub open spec fn flags_grow(done0: Seq<bool>, done: Seq<bool>) -> bool {
    done0.len() == done.len() && forall|i: int| 0 <= i < done0.len() && #[trigger] done0[i] ==> done[i]
}

proof fn lemma_flags_advance<F: Fn(&[i32]) -> bool>(
    cs: Seq<Constraint<F>>,
    done0: Seq<bool>,
    done: Seq<bool>,
    from: Seq<Partition>,
    cur: Seq<Partition>,
    new: Seq<Partition>,
    step: spec_fn(Seq<Partition>, Seq<Partition>) -> bool,
)
    requires
        flags_from_yes(cs, done0, done, from, cur, step),
        reaches_by(new, cur, step),
    ensures
        flags_from_yes(cs, done0, done, from, new, step),
{
    assert forall|i: int| 0 <= i < cs.len() && #[trigger] done[i] && !done0[i] implies exists|t: Seq<Partition>|
        reaches_by(t, from, step) && reaches_by(new, t, step) && #[trigger] satisfied_on(cs[i], t) by {
        let t = choose|t: Seq<Partition>| reaches_by(t, from, step) && reaches_by(cur, t, step) && #[trigger] satisfied_on(cs[i], t);
        lemma_reaches_by_trans(new, cur, t, step);
    }
}

proof fn lemma_flags_compose<F: Fn(&[i32]) -> bool>(
    cs: Seq<Constraint<F>>,
    d0: Seq<bool>,
    d1: Seq<bool>,
    d2: Seq<bool>,
    from: Seq<Partition>,
    mid: Seq<Partition>,
    cur: Seq<Partition>,
    r1: spec_fn(Seq<Partition>, Seq<Partition>) -> bool,
    r: spec_fn(Seq<Partition>, Seq<Partition>) -> bool,
)
    requires
        flags_from_yes(cs, d0, d1, from, mid, r),
        flags_from_yes(cs, d1, d2, mid, cur, r1),
        forall|a: Seq<Partition>, b: Seq<Partition>| #[trigger] r1(a, b) ==> r(a, b),
        reaches_by(mid, from, r),
        reaches_by(cur, mid, r1),
    ensures
        flags_from_yes(cs, d0, d2, from, cur, r),
{
    lemma_reaches_by_weaken(cur, mid, r1, r);
    assert forall|i: int| 0 <= i < cs.len() && #[trigger] d2[i] && !d0[i] implies exists|t: Seq<Partition>|
        reaches_by(t, from, r) && reaches_by(cur, t, r) && #[trigger] satisfied_on(cs[i], t) by {
        if d1[i] {
            let t = choose|t: Seq<Partition>| reaches_by(t, from, r) && reaches_by(mid, t, r) && #[trigger] satisfied_on(cs[i], t);
            lemma_reaches_by_trans(cur, mid, t, r);
        } else {
            let t = choose|t: Seq<Partition>| reaches_by(t, mid, r1) && reaches_by(cur, t, r1) && #[trigger] satisfied_on(cs[i], t);
            lemma_reaches_by_weaken(t, mid, r1, r);
            lemma_reaches_by_weaken(cur, t, r1, r);
            lemma_reaches_by_trans(t, mid, from, r);
        }
    }
}

proof fn lemma_flags_none<F: Fn(&[i32]) -> bool>(
    cs: Seq<Constraint<F>>,
    d: Seq<bool>,
    from: Seq<Partition>,
    cur: Seq<Partition>,
    step: spec_fn(Seq<Partition>, Seq<Partition>) -> bool,
)
    ensures
        flags_from_yes(cs, d, d, from, cur, step),
{
}

/// Applying an open rule is a step of solving, for flags that only grew since.
proof fn lemma_prop_in_solve<F: Fn(&[i32]) -> bool>(cs: Seq<Constraint<F>>, d0: Seq<bool>, d1: Seq<bool>)
    requires
        forall|i: int| 0 <= i < cs.len() && d0[i] ==> d1[i],
    ensures
        forall|a: Seq<Partition>, b: Seq<Partition>| #[trigger] prop_rel(cs, d1)(a, b) ==> solve_rel(cs, d0)(a, b),
        forall|a: Seq<Partition>, b: Seq<Partition>| #[trigger] copy_rel()(a, b) ==> solve_rel(cs, d0)(a, b),
{
    assert forall|a: Seq<Partition>, b: Seq<Partition>| #[trigger] prop_rel(cs, d1)(a, b) implies solve_rel(cs, d0)(a, b) by {
        let i = choose|i: int| 0 <= i < cs.len() && !d1[i] && #[trigger] keeps_step(a, b, cs[i]);
        assert(propagation_step(a, b, cs, d0));
    }
}

/// Merges are steps of solving.
proof fn lemma_merges_in_solve<F: Fn(&[i32]) -> bool>(to: Seq<Partition>, from: Seq<Partition>, cs: Seq<Constraint<F>>, d0: Seq<bool>)
    requires
        merges_to(to, from),
    ensures
        reaches_by(to, from, solve_rel(cs, d0)),
{
    let c = choose|chain: Seq<Seq<Partition>>| #[trigger] merge_chain(chain) && chain[0] == from && chain.last() == to;
    assert forall|k: int| 0 <= k < c.len() - 1 implies #[trigger] solve_rel(cs, d0)(c[k + 1], c[k]) by {
        assert(merge_step(c[k + 1], c[k]));
    }
    assert(chain_by(c, solve_rel(cs, d0)));
}

/// Applying `c` to a table with these partitions would drop no tuple: the rule speaks of no
/// partition, holds of every assignment left, or keeps every tuple.
pub open spec fn stable<F: Fn(&[i32]) -> bool>(parts: Seq<Partition>, c: Constraint<F>) -> bool {
    match whole_model(c.rule, c.params@, c.value_maps@, parts) {
        None => true,
        Some(s) => verdict_f(c.rule, s) == YesNoMaybe::Yes || forall|p: int| 0 <= p < parts.len()
            ==> #[trigger] parts[p].rows() == all_kept(c.rule, c.params@, c.value_maps@, parts, p),
    }
}

/// Applying `c` to a table with these partitions would leave some partition without a tuple.
pub open spec fn empties_partition<F: Fn(&[i32]) -> bool>(c: Constraint<F>, parts: Seq<Partition>) -> bool {
    exists|p: int| 0 <= p < parts.len() && (#[trigger] all_kept(c.rule, c.params@, c.value_maps@, parts, p)).len() == 0
}

/// Every rule that is not done is stable on the table.
pub open spec fn at_fixpoint<F: Fn(&[i32]) -> bool>(parts: Seq<Partition>, constraints: Seq<Constraint<F>>, done: Seq<bool>) -> bool {
    forall|i: int| 0 <= i < constraints.len() && !done[i] ==> #[trigger] stable(parts, constraints[i])
}

/// Applies every rule not yet known to hold, over and over, until a whole pass rules out nothing.
/// A rule found to hold of every assignment left is marked done and skipped from then on.
///
/// On success the table comes from the old one by steps that each cut every partition down to
/// the tuples one open rule keeps, every open rule is stable on it, and a flag is newly set only
/// for a rule that checked `Yes` on a table along the way. A table that is already stable comes
/// back unchanged. An error names a rule that leaves a partition of the reported table without a
/// tuple.
pub fn apply_constraints<F: Fn(&[i32]) -> bool>(table: &mut Table, constraints: &Vec<Constraint<F>>, done: &mut Vec<bool>) -> (r: Result<(), Unsatisfiable>)
    requires
        old(table).wf(),
        constraints_ok(constraints@),
        old(done)@.len() == constraints@.len(),
    ensures
        final(table).wf(),
        final(done)@.len() == constraints@.len(),
        same_headers(*final(table), *old(table)),
        final(table).possibilities_spec() <= old(table).possibilities_spec(),
        final(table).size_spec() <= old(table).size_spec(),
        forall|i: int| 0 <= i < constraints@.len() && old(done)@[i] ==> final(done)@[i],
        narrows(final(table).partitions@, old(table).partitions@),
        r matches Err(u) ==> u.table.wf() && u.table.possibilities_spec() <= old(table).possibilities_spec()
            && narrows(u.table.partitions@, old(table).partitions@)
            && exists|i: int| 0 <= i < constraints@.len() && !old(done)@[i] && u.params@ == (#[trigger] constraints@[i]).params@
                && u.name == constraints@[i].rule.name_spec() && empties_partition(constraints@[i], u.table.partitions@),
        r is Ok ==> at_fixpoint(final(table).partitions@, constraints@, final(done)@),
        at_fixpoint(old(table).partitions@, constraints@, old(done)@) ==> r is Ok
            && final(table).partitions@ == old(table).partitions@,
        r is Ok ==> reaches_by(final(table).partitions@, old(table).partitions@, prop_rel(constraints@, old(done)@)),
        r is Ok ==> flags_from_yes(constraints@, old(done)@, final(done)@, old(table).partitions@, final(table).partitions@, prop_rel(constraints@, old(done)@)),
        r matches Err(u) ==> reaches_by(u.table.partitions@, old(table).partitions@, prop_rel(constraints@, old(done)@)),
{
    proof {
        lemma_narrows_refl(table.partitions@);
        lemma_reaches_by_refl(table.partitions@, prop_rel(constraints@, old(done)@));
        lemma_flags_none(constraints@, done@, table.partitions@, table.partitions@, prop_rel(constraints@, old(done)@));
    }
    loop
        invariant
            table.wf(),
            constraints_ok(constraints@),
            done@.len() == constraints@.len(),
            same_headers(*table, *old(table)),
            table.possibilities_spec() <= old(table).possibilities_spec(),
            table.size_spec() <= old(table).size_spec(),
            forall|i: int| 0 <= i < constraints@.len() && old(done)@[i] ==> done@[i],
            at_fixpoint(old(table).partitions@, constraints@, old(done)@)
                ==> table.partitions@ == old(table).partitions@,
            narrows(table.partitions@, old(table).partitions@),
            reaches_by(table.partitions@, old(table).partitions@, prop_rel(constraints@, old(done)@)),
            flags_from_yes(constraints@, old(done)@, done@, old(table).partitions@, table.partitions@, prop_rel(constraints@, old(done)@)),
        decreases table.size_spec(),
    {
        let ghost start_size = table.size_spec();
        let ghost pass_start = table.partitions@;
        let mut narrowed = false;
        let mut i: usize = 0;
        while i < constraints.len()
            invariant
                i <= constraints@.len(),
                table.wf(),
                constraints_ok(constraints@),
                done@.len() == constraints@.len(),
                same_headers(*table, *old(table)),
                table.possibilities_spec() <= old(table).possibilities_spec(),
                table.size_spec() <= start_size,
                start_size <= old(table).size_spec(),
                narrowed ==> table.size_spec() < start_size,
                forall|k: int| 0 <= k < constraints@.len() && old(done)@[k] ==> done@[k],
                !narrowed ==> table.partitions@ == pass_start,
                !narrowed ==> forall|k: int| 0 <= k < i && !done@[k]
                    ==> #[trigger] stable(table.partitions@, constraints@[k]),
                at_fixpoint(old(table).partitions@, constraints@, old(done)@)
                    ==> !narrowed && pass_start == old(table).partitions@,
                narrows(table.partitions@, old(table).partitions@),
                reaches_by(table.partitions@, old(table).partitions@, prop_rel(constraints@, old(done)@)),
                flags_from_yes(constraints@, old(done)@, done@, old(table).partitions@, table.partitions@, prop_rel(constraints@, old(done)@)),
            decreases constraints.len() - i,
        {
            if !done[i] {
                let c = &constraints[i];
                assert(constraints_ok(constraints@) ==> c.rule.wf());
                let ghost before = *table;
                let ghost fix = at_fixpoint(old(table).partitions@, constraints@, old(done)@);
                proof {
                    if fix {
                        assert(!old(done)@[i as int]);
                        assert(stable(before.partitions@, constraints@[i as int]));
                        assert forall|p: int| 0 <= p < before.partitions@.len() implies (#[trigger] before.partitions@[p]).rows().len() > 0 by {
                            assert(before.partitions@[p].wf());
                        }
                    }
                }
                let ghost done_before = done@;
                let res = table.apply_constraint(&c.params, &c.value_maps, &c.rule);
                proof {
                    assert(!old(done)@[i as int]);
                    let rel = prop_rel(constraints@, old(done)@);
                    if res matches Ok(Outcome::Narrowed) {
                        assert(keeps_step(table.partitions@, before.partitions@, constraints@[i as int]));
                        assert(rel(table.partitions@, before.partitions@));
                        lemma_reaches_by_step(table.partitions@, before.partitions@, old(table).partitions@, rel);
                        lemma_reaches_by_refl(before.partitions@, rel);
                        lemma_reaches_by_step(table.partitions@, before.partitions@, before.partitions@, rel);
                        lemma_flags_advance(constraints@, old(done)@, done@, old(table).partitions@, before.partitions@, table.partitions@, rel);
                    }
                    if res matches Ok(Outcome::Satisfied) {
                        assert(satisfied_on(constraints@[i as int], before.partitions@));
                        lemma_reaches_by_refl(before.partitions@, rel);
                    }
                    lemma_narrows_possibilities(table.partitions@, before.partitions@);
                    lemma_narrows_trans(table.partitions@, before.partitions@, old(table).partitions@);
                    if fix {
                        if res is Err {
                            let w = whole_model(c.rule, c.params@, c.value_maps@, before.partitions@);
                            if w matches Some(s) && verdict_f(c.rule, s) != YesNoMaybe::Yes {
                                let p = choose|p: int| 0 <= p < before.partitions@.len()
                                    && (#[trigger] all_kept(c.rule, c.params@, c.value_maps@, before.partitions@, p)).len() == 0;
                                assert(before.partitions@[p].rows() == all_kept(c.rule, c.params@, c.value_maps@, before.partitions@, p));
                                assert(before.partitions@[p].rows().len() > 0);
                            }
                        }
                        if res matches Ok(Outcome::Narrowed) {
                            let w = whole_model(c.rule, c.params@, c.value_maps@, before.partitions@);
                            if w matches Some(s) && verdict_f(c.rule, s) != YesNoMaybe::Yes {
                                assert forall|p: int| 0 <= p < before.partitions@.len() implies (#[trigger] table.partitions@[p]).tuples@.len()
                                    == before.partitions@[p].tuples@.len() by {
                                    assert(table.partitions@[p].rows() == all_kept(c.rule, c.params@, c.value_maps@, before.partitions@, p));
                                    assert(table.partitions@[p].rows().len() == table.partitions@[p].tuples@.len());
                                    assert(before.partitions@[p].rows().len() == before.partitions@[p].tuples@.len());
                                }
                                assert(counts(table.partitions@) =~= counts(before.partitions@));
                            }
                        }
                    }
                }
                match res {
                    Ok(Outcome::Satisfied) => {
                        done.set(i, true);
                        proof {
                            let rel = prop_rel(constraints@, old(done)@);
                            assert forall|k: int| 0 <= k < constraints@.len() && #[trigger] done@[k] && !old(done)@[k] implies exists|t: Seq<Partition>|
                                reaches_by(t, old(table).partitions@, rel) && reaches_by(table.partitions@, t, rel)
                                && #[trigger] satisfied_on(constraints@[k], t) by {
                                if k != i {
                                    assert(done_before[k]);
                                } else {
                                    assert(reaches_by(before.partitions@, old(table).partitions@, rel));
                                }
                            }
                        }
                    },
                    Ok(Outcome::Narrowed) => {
                        narrowed = true;
                    },
                    Ok(Outcome::Unchanged) => {
                        proof {
                            let w = whole_model(c.rule, c.params@, c.value_maps@, before.partitions@);
                            if w matches Some(s) && verdict_f(c.rule, s) != YesNoMaybe::Yes {
                                assert forall|p: int| 0 <= p < table.partitions@.len() implies #[trigger] table.partitions@[p].rows()
                                    == all_kept(c.rule, c.params@, c.value_maps@, table.partitions@, p) by {
                                    assert(table.partitions@ == before.partitions@);
                                }
                            }
                            assert(stable(table.partitions@, constraints@[i as int]));
                        }
                    },
                    Err(u) => {
                        assert(u.params@ == constraints@[i as int].params@);
                        assert(empties_partition(constraints@[i as int], u.table.partitions@));
                        assert(u.table.partitions@ == before.partitions@);
                        return Err(u);
                    },
                }
            }
            i = i + 1;
        }
        if !narrowed {
            assert(at_fixpoint(table.partitions@, constraints@, done@));
            return Ok(());
        }
    }
}

fn copy_flags(v: &Vec<bool>) -> (r: Vec<bool>)
    ensures
        r@ == v@,
{
    let mut out: Vec<bool> = Vec::new();
    let mut i: usize = 0;
    while i < v.len()
        invariant
            i <= v@.len(),
            out@ == v@.take(i as int),
        decreases v.len() - i,
    {
        out.push(v[i]);
        i = i + 1;
        assert(out@ =~= v@.take(i as int));
    }
    assert(v@.take(v@.len() as int) =~= v@);
    out
}

/// With every count at least one, a product of at most one means every count is one.
proof fn lemma_product_one(s: Seq<nat>)
    requires
        forall|k: int| 0 <= k < s.len() ==> s[k] >= 1,
        product(s) <= 1,
    ensures
        forall|k: int| 0 <= k < s.len() ==> s[k] == 1,
    decreases s.len(),
{
    if s.len() > 0 {
        let a = product(s.drop_last());
        lemma_product_positive(s.drop_last());
        assert(a >= 1);
        assert(a * s.last() >= a && a * s.last() >= s.last()) by (nonlinear_arith)
            requires a >= 1, s.last() >= 1;
        lemma_product_one(s.drop_last());
        assert forall|k: int| 0 <= k < s.len() implies s[k] == 1 by {
            if k < s.len() - 1 {
                assert(s.drop_last()[k] == s[k]);
            }
        }
    }
}

proof fn lemma_product_positive(s: Seq<nat>)
    requires
        forall|k: int| 0 <= k < s.len() ==> s[k] >= 1,
    ensures
        product(s) >= 1,
    decreases s.len(),
{
    if s.len() > 0 {
        lemma_product_positive(s.drop_last());
        let a = product(s.drop_last());
        assert(a * s.last() >= 1) by (nonlinear_arith)
            requires a >= 1, s.last() >= 1;
    }
}

/// The solver: variables with their domains, constraints over them, and the table of what
/// may still be.
pub struct Solvomatic<F: Fn(&[i32]) -> bool> {
    pub table: Table,
    pub constraints: Vec<Constraint<F>>,
    /// Per constraint: whether it is known to hold of every assignment left.
    pub done: Vec<bool>,
    pub config: Config,
}

impl<F: Fn(&[i32]) -> bool> Solvomatic<F> {
    pub open spec fn wf(&self) -> bool {
        &&& self.table.wf()
        &&& constraints_ok(self.constraints@)
        &&& self.done@.len() == self.constraints@.len()
    }

    pub open spec fn table_spec(&self) -> Table {
        self.table
    }

    pub open spec fn constraints_spec(&self) -> Seq<Constraint<F>> {
        self.constraints@
    }

    /// An empty solver. Call `var()` and `constraint()` to give it variables and constraints,
    /// then `solve()` to solve for them.
    pub fn new() -> (r: Solvomatic<F>)
        ensures
            r.wf(),
            r.table_spec().partitions@.len() == 0,
            r.constraints_spec().len() == 0,
            !r.config.log_steps && !r.config.log_constraints && !r.config.log_completed && !r.config.log_elapsed
                && !r.config.log_states,
    {
        Solvomatic { table: Table::new(), constraints: Vec::new(), done: Vec::new(), config: Config::new() }
    }

    pub fn config(&self) -> (r: Config)
        ensures
            r == self.config,
    {
        self.config
    }

    pub fn set_config(&mut self, config: Config)
        ensures
            final(self).config == config,
            final(self).table == old(self).table,
            final(self).constraints == old(self).constraints,
            final(self).done == old(self).done,
    {
        self.config = config;
    }

    /// The current table.
    pub fn table(&self) -> (r: &Table)
        ensures
            *r == self.table_spec(),
    {
        &self.table
    }

    /// Adds a new variable, with its non-empty list of possible values.
    pub fn var(&mut self, var: usize, values: Vec<i32>)
        requires
            old(self).wf(),
            !has_var(old(self).table_spec().partitions@, var),
            values@.len() > 0,
        ensures
            final(self).wf(),
            final(self).table_spec().partitions@.drop_last() == old(self).table_spec().partitions@,
            final(self).table_spec().partitions@.last().header@ == seq![var],
            final(self).table_spec().partitions@.last().rows() == values@.map_values(|v: i32| seq![v]),
            final(self).constraints_spec() == old(self).constraints_spec(),
            final(self).done@ == old(self).done@,
    {
        self.table.add_column(var, &values);
    }

    /// Adds the requirement that the variables `params` obey `rule`.
    pub fn constraint(&mut self, params: Vec<usize>, rule: Rule<F>)
        requires
            old(self).wf(),
            rule.wf(),
            rule.arity_ok(params@.len()),
        ensures
            final(self).wf(),
            final(self).table_spec() == old(self).table_spec(),
            final(self).constraints_spec().len() == old(self).constraints_spec().len() + 1,
            final(self).constraints_spec().drop_last() == old(self).constraints_spec(),
            final(self).constraints_spec().last().params@ == params@,
            final(self).constraints_spec().last().value_maps@.len() == 0,
            final(self).done@ == old(self).done@.push(false),
    {
        self.mapped_constraint(params, Vec::new(), rule);
    }

    /// Adds the requirement that the variables `params`, their values translated position by
    /// position through `value_maps`, obey `rule`.
    pub fn mapped_constraint(&mut self, params: Vec<usize>, value_maps: Vec<Vec<(i32, i32)>>, rule: Rule<F>)
        requires
            old(self).wf(),
            rule.wf(),
            rule.arity_ok(params@.len()),
        ensures
            final(self).wf(),
            final(self).table_spec() == old(self).table_spec(),
            final(self).constraints_spec().len() == old(self).constraints_spec().len() + 1,
            final(self).constraints_spec().drop_last() == old(self).constraints_spec(),
            final(self).constraints_spec().last().params@ == params@,
            final(self).constraints_spec().last().value_maps@ == value_maps@,
            final(self).done@ == old(self).done@.push(false),
    {
        let ghost old_cs = self.constraints@;
        self.constraints.push(Constraint { params, value_maps, rule });
        self.done.push(false);
        assert(self.constraints@.drop_last() =~= old_cs);
        assert forall|i: int| 0 <= i < self.constraints@.len() implies (#[trigger] self.constraints@[i]).rule.wf()
            && self.constraints@[i].rule.arity_ok(self.constraints@[i].params@.len()) by {
            if i < old_cs.len() {
                assert(self.constraints@[i] == old_cs[i]);
            }
        }
    }

    /// Marks done every rule that, applied to a copy of the table, is found to hold of every
    /// assignment left.
    fn retire_satisfied(&mut self)
        requires
            old(self).wf(),
        ensures
            final(self).wf(),
            final(self).table == old(self).table,
            final(self).constraints == old(self).constraints,
            flags_grow(old(self).done@, final(self).done@),
            flags_from_yes(final(self).constraints@, old(self).done@, final(self).done@, old(self).table.partitions@,
                old(self).table.partitions@, copy_rel()),
    {
        let ghost parts = self.table.partitions@;
        proof {
            lemma_flags_none(self.constraints@, self.done@, parts, parts, copy_rel());
        }
        let mut i: usize = 0;
        while i < self.constraints.len()
            invariant
                self.wf(),
                self.table == old(self).table,
                self.constraints == old(self).constraints,
                parts == old(self).table.partitions@,
                i <= self.constraints@.len(),
                flags_grow(old(self).done@, self.done@),
                flags_from_yes(self.constraints@, old(self).done@, self.done@, parts, parts, copy_rel()),
            decreases self.constraints.len() - i,
        {
            if !self.done[i] {
                let mut scratch = self.table.duplicate();
                let ghost copy = scratch.partitions@;
                let c = &self.constraints[i];
                assert(constraints_ok(self.constraints@) ==> c.rule.wf());
                let outcome = scratch.apply_constraint(&c.params, &c.value_maps, &c.rule);
                if let Ok(Outcome::Satisfied) = outcome {
                    let ghost done_before = self.done@;
                    proof {
                        let rel = copy_rel();
                        assert(satisfied_on(self.constraints@[i as int], copy));
                        assert(copy_step(copy, parts));
                        assert(copy_step(parts, copy));
                        lemma_reaches_by_refl(parts, rel);
                        lemma_reaches_by_step(copy, parts, parts, rel);
                        lemma_reaches_by_refl(copy, rel);
                        lemma_reaches_by_step(parts, copy, copy, rel);
                    }
                    self.done.set(i, true);
                    proof {
                        let rel = copy_rel();
                        assert forall|k: int| 0 <= k < self.constraints@.len() && #[trigger] self.done@[k] && !old(self).done@[k]
                            implies exists|t: Seq<Partition>| reaches_by(t, parts, rel) && reaches_by(parts, t, rel)
                            && #[trigger] satisfied_on(self.constraints@[k], t) by {
                            if k != i {
                                assert(done_before[k]);
                            } else {
                                assert(reaches_by(copy, parts, rel) && reaches_by(parts, copy, rel));
                            }
                        }
                    }
                }
            }
            i = i + 1;
        }
    }

    /// Solves: propagates the constraints to a fixpoint, then repeatedly merges the pair of
    /// partitions whose merge, propagated again, leaves the fewest tuples (the first such pair
    /// on a tie), until one partition is left or a single assignment remains; then merges the
    /// single-tuple partitions and propagates once more.
    ///
    /// Every table it passes through, and the one it reports on an error, comes from the initial
    /// table by steps that apply an open rule, merge two partitions, or copy the table. A flag is
    /// newly set only for a rule that checked `Yes` on a table along the way. On success the table
    /// is at a fixpoint of the open rules; an error names a rule that leaves a partition without a
    /// tuple.
    pub fn solve(&mut self) -> (r: Result<(), Unsatisfiable>)
        requires
            old(self).wf(),
        ensures
            final(self).wf(),
            final(self).constraints_spec() == old(self).constraints_spec(),
            reaches(final(self).table_spec().partitions@, old(self).table_spec().partitions@),
            final(self).table_spec().possibilities_spec() <= old(self).table_spec().possibilities_spec(),
            r is Ok ==> final(self).table_spec().partitions@.len() <= 1,
            r is Ok ==> at_fixpoint(final(self).table_spec().partitions@, final(self).constraints_spec(), final(self).done@),
            old(self).constraints_spec().len() == 0 ==> r is Ok,
            r is Ok ==> reaches_by(final(self).table_spec().partitions@, old(self).table_spec().partitions@, solve_rel(old(self).constraints@, old(self).done@)),
            r is Ok ==> flags_from_yes(old(self).constraints@, old(self).done@, final(self).done@, old(self).table_spec().partitions@,
                final(self).table_spec().partitions@, solve_rel(old(self).constraints@, old(self).done@)),
            r is Ok ==> flags_grow(old(self).done@, final(self).done@),
            r matches Err(u) ==> reaches_by(u.table.partitions@, old(self).table_spec().partitions@, solve_rel(old(self).constraints@, old(self).done@)),
            r matches Err(u) ==> u.table.wf() && reaches(u.table.partitions@, old(self).table_spec().partitions@)
                && u.table.possibilities_spec() <= old(self).table_spec().possibilities_spec()
                && exists|i: int| 0 <= i < old(self).constraints_spec().len() && u.params@ == (#[trigger] old(self).constraints_spec()[i]).params@
                    && u.name == old(self).constraints_spec()[i].rule.name_spec()
                    && empties_partition(old(self).constraints_spec()[i], u.table.partitions@),
    {
        let ghost start_parts = self.table.partitions@;
        let ghost start = self.table.possibilities_spec();
        let ghost rs = solve_rel(old(self).constraints@, old(self).done@);
        proof {
            lemma_reaches_refl(start_parts);
            lemma_reaches_by_refl(start_parts, rs);
            lemma_flags_none(self.constraints@, self.done@, start_parts, start_parts, rs);
            lemma_prop_in_solve(self.constraints@, self.done@, self.done@);
        }
        let first = apply_constraints(&mut self.table, &self.constraints, &mut self.done);
        match first {
            Ok(()) => {
                proof {
                    lemma_reaches_step(self.table.partitions@, start_parts, start_parts);
                    let r1 = prop_rel(self.constraints@, old(self).done@);
                    lemma_reaches_by_weaken(self.table.partitions@, start_parts, r1, rs);
                    lemma_flags_compose(self.constraints@, old(self).done@, old(self).done@, self.done@, start_parts, start_parts, self.table.partitions@, r1, rs);
                }
            },
            Err(u) => {
                proof {
                    lemma_reaches_by_weaken(u.table.partitions@, start_parts, prop_rel(self.constraints@, old(self).done@), rs);
                    lemma_reaches_step(u.table.partitions@, start_parts, start_parts);
                    lemma_reaches_possibilities(u.table.partitions@, start_parts);
                    lemma_reaches_step(self.table.partitions@, start_parts, start_parts);
                    lemma_reaches_possibilities(self.table.partitions@, start_parts);
                    let w = choose|w: int| 0 <= w < self.constraints@.len() && !old(self).done@[w]
                        && u.params@ == (#[trigger] self.constraints@[w]).params@ && u.name == self.constraints@[w].rule.name_spec()
                        && empties_partition(self.constraints@[w], u.table.partitions@);
                    assert(u.params@ == old(self).constraints_spec()[w].params@);
                }
                return Err(u);
            },
        }
        while self.table.partitions.len() > 1 && self.table.possibilities() > 1
            invariant
                self.wf(),
                self.table.possibilities_spec() <= start,
                start == old(self).table.possibilities_spec(),
                start_parts == old(self).table.partitions@,
                self.constraints == old(self).constraints,
                reaches(self.table.partitions@, start_parts),
                rs == solve_rel(old(self).constraints@, old(self).done@),
                reaches_by(self.table.partitions@, start_parts, rs),
                flags_from_yes(self.constraints@, old(self).done@, self.done@, start_parts, self.table.partitions@, rs),
                flags_grow(old(self).done@, self.done@),
            decreases self.table.partitions@.len(),
        {
            let ghost len_before = self.table.partitions@.len();
            let ghost done_prev = self.done@;
            self.retire_satisfied();
            proof {
                lemma_prop_in_solve(self.constraints@, old(self).done@, old(self).done@);
                lemma_reaches_by_refl(self.table.partitions@, copy_rel());
                lemma_flags_compose(self.constraints@, old(self).done@, done_prev, self.done@, start_parts, self.table.partitions@,
                    self.table.partitions@, copy_rel(), rs);
            }
            let ghost before_merge = self.table.partitions@;
            self.table.merge_constants();
            proof {
                lemma_reaches_merges(self.table.partitions@, before_merge, start_parts);
                lemma_merges_in_solve(self.table.partitions@, before_merge, self.constraints@, old(self).done@);
                lemma_reaches_by_trans(self.table.partitions@, before_merge, start_parts, rs);
                lemma_flags_advance(self.constraints@, old(self).done@, self.done@, start_parts, before_merge, self.table.partitions@, rs);
            }
            let n = self.table.partitions.len();
            if n > 1 {
                let mut best: Option<(Table, Vec<bool>)> = None;
                let mut best_cost: usize = 0;
                let mut i: usize = 0;
                while i < n
                    invariant
                        self.wf(),
                        self.constraints == old(self).constraints,
                        self.table.possibilities_spec() <= start,
                        start == old(self).table.possibilities_spec(),
                        start_parts == old(self).table.partitions@,
                        reaches(self.table.partitions@, start_parts),
                        n == self.table.partitions@.len(),
                        n > 1,
                        n <= len_before,
                        i <= n,
                        i > 0 ==> best is Some,
                        best matches Some(b) ==> b.0.wf() && b.1@.len() == self.constraints@.len()
                            && b.0.partitions@.len() == n - 1
                            && b.0.possibilities_spec() <= self.table.possibilities_spec()
                            && reaches(b.0.partitions@, start_parts)
                            && reaches_by(b.0.partitions@, start_parts, rs)
                            && flags_from_yes(self.constraints@, old(self).done@, b.1@, start_parts, b.0.partitions@, rs)
                            && flags_grow(old(self).done@, b.1@),
                        rs == solve_rel(old(self).constraints@, old(self).done@),
                        reaches_by(self.table.partitions@, start_parts, rs),
                        flags_from_yes(self.constraints@, old(self).done@, self.done@, start_parts, self.table.partitions@, rs),
                        flags_grow(old(self).done@, self.done@),
                    decreases n - i,
                {
                    let mut j: usize = i + 1;
                    while j < n
                        invariant
                            self.wf(),
                            self.constraints == old(self).constraints,
                            self.table.possibilities_spec() <= start,
                            start == old(self).table.possibilities_spec(),
                            start_parts == old(self).table.partitions@,
                            reaches(self.table.partitions@, start_parts),
                            n == self.table.partitions@.len(),
                            n > 1,
                            i < n,
                            i + 1 <= j <= n,
                            j > i + 1 ==> best is Some,
                            i > 0 ==> best is Some,
                            best matches Some(b) ==> b.0.wf() && b.1@.len() == self.constraints@.len()
                                && b.0.partitions@.len() == n - 1
                                && b.0.possibilities_spec() <= self.table.possibilities_spec()
                                && reaches(b.0.partitions@, start_parts)
                                && reaches_by(b.0.partitions@, start_parts, rs)
                                && flags_from_yes(self.constraints@, old(self).done@, b.1@, start_parts, b.0.partitions@, rs)
                                && flags_grow(old(self).done@, b.1@),
                            rs == solve_rel(old(self).constraints@, old(self).done@),
                            reaches_by(self.table.partitions@, start_parts, rs),
                            flags_from_yes(self.constraints@, old(self).done@, self.done@, start_parts, self.table.partitions@, rs),
                            flags_grow(old(self).done@, self.done@),
                        decreases n - j,
                    {
                        let mut candidate = self.table.duplicate();
                        let mut flags = copy_flags(&self.done);
                        proof {
                            lemma_narrows_copy(candidate.partitions@, self.table.partitions@);
                            lemma_reaches_step(candidate.partitions@, self.table.partitions@, start_parts);
                            assert(copy_step(candidate.partitions@, self.table.partitions@));
                            assert(rs(candidate.partitions@, self.table.partitions@));
                            lemma_reaches_by_step(candidate.partitions@, self.table.partitions@, start_parts, rs);
                        }
                        let ghost copied = candidate.partitions@;
                        candidate.merge(i, j);
                        proof {
                            assert(merge_step(candidate.partitions@, copied));
                            lemma_reaches_step(candidate.partitions@, copied, start_parts);
                            assert(rs(candidate.partitions@, copied));
                            lemma_reaches_by_step(candidate.partitions@, copied, start_parts, rs);
                            lemma_reaches_by_refl(self.table.partitions@, rs);
                            lemma_reaches_by_step(copied, self.table.partitions@, self.table.partitions@, rs);
                            lemma_reaches_by_step(candidate.partitions@, copied, self.table.partitions@, rs);
                            lemma_flags_advance(self.constraints@, old(self).done@, self.done@, start_parts, self.table.partitions@,
                                candidate.partitions@, rs);
                            lemma_prop_in_solve(self.constraints@, old(self).done@, self.done@);
                        }
                        let ghost flags_before = flags@;
                        let ghost merged = candidate.partitions@;
                        assert(candidate.possibilities_spec() == self.table.possibilities_spec());
                        match apply_constraints(&mut candidate, &self.constraints, &mut flags) {
                            Ok(()) => {
                                proof {
                                    lemma_reaches_step(candidate.partitions@, merged, start_parts);
                                    let r1 = prop_rel(self.constraints@, flags_before);
                                    lemma_reaches_by_weaken(candidate.partitions@, merged, r1, rs);
                                    lemma_reaches_by_trans(candidate.partitions@, merged, start_parts, rs);
                                    lemma_flags_compose(self.constraints@, old(self).done@, self.done@, flags@, start_parts, merged,
                                        candidate.partitions@, r1, rs);
                                }
                            },
                            Err(u) => {
                                proof {
                                    let r1 = prop_rel(self.constraints@, flags_before);
                                    lemma_reaches_by_weaken(u.table.partitions@, merged, r1, rs);
                                    lemma_reaches_by_trans(u.table.partitions@, merged, start_parts, rs);
                                    lemma_reaches_step(u.table.partitions@, merged, start_parts);
                                    lemma_reaches_possibilities(u.table.partitions@, start_parts);
                                }
                                assert(self.constraints@ == old(self).constraints@);
                                let ghost w = choose|w: int| 0 <= w < self.constraints@.len() && !self.done@[w]
                                    && u.params@ == (#[trigger] self.constraints@[w]).params@ && u.name == self.constraints@[w].rule.name_spec()
                                    && empties_partition(self.constraints@[w], u.table.partitions@);
                                assert(u.params@ == old(self).constraints_spec()[w].params@);
                                return Err(u);
                            },
                        }
                        let cost = candidate.size();
                        let better = match &best {
                            None => true,
                            Some(_) => cost < best_cost,
                        };
                        if better {
                            best = Some((candidate, flags));
                            best_cost = cost;
                        }
                        j = j + 1;
                    }
                    i = i + 1;
                }
                match best {
                    Some((table, flags)) => {
                        self.table = table;
                        self.done = flags;
                    },
                    None => {},
                }
            }
        }
        let ghost before_merge = self.table.partitions@;
        self.table.merge_constants();
        proof {
            lemma_reaches_merges(self.table.partitions@, before_merge, start_parts);
            lemma_merges_in_solve(self.table.partitions@, before_merge, self.constraints@, old(self).done@);
            lemma_reaches_by_trans(self.table.partitions@, before_merge, start_parts, rs);
            lemma_flags_advance(self.constraints@, old(self).done@, self.done@, start_parts, before_merge, self.table.partitions@, rs);
            let c = counts(self.table.partitions@);
            assert forall|k: int| 0 <= k < c.len() implies c[k] >= 1 by {
                assert(self.table.partitions@[k].wf());
            }
            if self.table.partitions@.len() > 1 {
                lemma_product_one(c);
                assert(c[0] == 1 && c[1] == 1);
                assert(self.table.partitions@[0].tuples@.len() == 1);
                assert(self.table.partitions@[1].tuples@.len() == 1);
            }
        }
        let ghost merged = self.table.partitions@;
        let ghost done_before = self.done@;
        proof {
            lemma_prop_in_solve(self.constraints@, old(self).done@, self.done@);
        }
        let last = apply_constraints(&mut self.table, &self.constraints, &mut self.done);
        proof {
            lemma_reaches_step(self.table.partitions@, merged, start_parts);
            lemma_reaches_possibilities(self.table.partitions@, start_parts);
        }
        match last {
            Ok(()) => {
                proof {
                    let r1 = prop_rel(self.constraints@, done_before);
                    lemma_reaches_by_weaken(self.table.partitions@, merged, r1, rs);
                    lemma_reaches_by_trans(self.table.partitions@, merged, start_parts, rs);
                    lemma_flags_compose(self.constraints@, old(self).done@, done_before, self.done@, start_parts, merged,
                        self.table.partitions@, r1, rs);
                }
                Ok(())
            },
            Err(u) => {
                proof {
                    let r1 = prop_rel(self.constraints@, done_before);
                    lemma_reaches_by_weaken(u.table.partitions@, merged, r1, rs);
                    lemma_reaches_by_trans(u.table.partitions@, merged, start_parts, rs);
                    lemma_reaches_step(u.table.partitions@, merged, start_parts);
                    lemma_reaches_possibilities(u.table.partitions@, start_parts);
                    let w = choose|w: int| 0 <= w < self.constraints@.len() && !done_before[w]
                        && u.params@ == (#[trigger] self.constraints@[w]).params@ && u.name == self.constraints@[w].rule.name_spec()
                        && empties_partition(self.constraints@[w], u.table.partitions@);
                    assert(u.params@ == old(self).constraints_spec()[w].params@);
                }
                Err(u)
            },
        }
    }
}

} // verus!
