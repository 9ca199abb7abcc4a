use solvomatic::interval::{Prod, Sum};
use solvomatic::count::Count;
use solvomatic::permutation::Permutation;
use solvomatic::propagate::{remap, Outcome};
use solvomatic::rule::Rule;
use solvomatic::solver::{apply_constraints, Solvomatic};
use solvomatic::table::Table;

type Plain = fn(&[i32]) -> bool;

fn shape(table: &Table) -> Vec<(Vec<usize>, Vec<Vec<i32>>)> {
    table.partitions.iter().map(|p| (p.header.clone(), p.tuples.clone())).collect()
}

fn three_vars() -> Table {
    let mut t = Table::new();
    t.add_column(0, &vec![1, 2]);
    t.add_column(1, &vec![5]);
    t.add_column(2, &vec![7, 8, 9]);
    t
}

#[test]
fn add_column_and_counts() {
    let t = three_vars();
    assert_eq!(t.partitions.len(), 3);
    assert_eq!(t.partitions[2].header, vec![2]);
    assert_eq!(t.partitions[2].tuples, vec![vec![7], vec![8], vec![9]]);
    assert_eq!(t.size(), 6);
    assert_eq!(t.possibilities(), 6);
    assert!(!t.is_solved());
}

#[test]
fn merge_is_a_cross_product() {
    let mut t = three_vars();
    t.merge(0, 2);
    assert_eq!(t.partitions.len(), 2);
    assert_eq!(t.partitions[0].header, vec![1]);
    assert_eq!(t.partitions[1].header, vec![0, 2]);
    assert_eq!(
        t.partitions[1].tuples,
        vec![vec![1, 7], vec![1, 8], vec![1, 9], vec![2, 7], vec![2, 8], vec![2, 9]]
    );
    assert_eq!(t.possibilities(), 6);
    assert_eq!(t.size(), 7);
}

#[test]
fn merge_in_reverse_order() {
    let mut t = three_vars();
    t.merge(2, 0);
    assert_eq!(t.partitions[1].header, vec![2, 0]);
    assert_eq!(t.partitions[1].tuples[0], vec![7, 1]);
    assert_eq!(t.possibilities(), 6);
}

#[test]
fn merge_constants_joins_single_tuples() {
    let mut t = Table::new();
    t.add_column(0, &vec![1]);
    t.add_column(1, &vec![2, 3]);
    t.add_column(2, &vec![4]);
    t.add_column(3, &vec![5]);
    t.merge_constants();
    assert_eq!(t.partitions.len(), 2);
    let single: Vec<_> = t.partitions.iter().filter(|p| p.tuples.len() == 1).collect();
    assert_eq!(single.len(), 1);
    assert_eq!(single[0].header.len(), 3);
    assert_eq!(t.possibilities(), 2);
}

#[test]
fn is_solved_when_one_assignment_is_left() {
    let mut t = Table::new();
    t.add_column(0, &vec![1]);
    t.add_column(1, &vec![2]);
    assert!(t.is_solved());
    assert_eq!(t.possibilities(), 1);
}

#[test]
fn apply_constraint_drops_impossible_tuples() {
    let mut t = Table::new();
    t.add_column(0, &(1..=9).collect());
    t.add_column(1, &(1..=9).collect());
    let rule: Rule<Plain> = Rule::Sum(Sum::new(4));
    let r = t.apply_constraint(&vec![0, 1], &vec![], &rule);
    assert!(matches!(r, Ok(Outcome::Narrowed)));
    assert_eq!(t.partitions[0].tuples, vec![vec![1], vec![2], vec![3]]);
    assert_eq!(t.partitions[1].tuples, vec![vec![1], vec![2], vec![3]]);
}

#[test]
fn apply_constraint_reports_satisfied() {
    let mut t = Table::new();
    t.add_column(0, &vec![2]);
    t.add_column(1, &vec![3]);
    let rule: Rule<Plain> = Rule::Prod(Prod::new(6));
    let r = t.apply_constraint(&vec![0, 1], &vec![], &rule);
    assert!(matches!(r, Ok(Outcome::Satisfied)));
    assert_eq!(t.size(), 2);
}

#[test]
fn possibilities_never_grow() {
    let mut solver = Solvomatic::<Plain>::new();
    for v in 0..4 {
        solver.var(v, (1..=4).collect());
    }
    solver.constraint(vec![0, 1, 2, 3], Rule::Permutation(Permutation::new(vec![1, 2, 3, 4])));
    solver.constraint(vec![0, 1], Rule::Sum(Sum::new(3)));
    let before = solver.table().possibilities();
    assert_eq!(before, 256);
    assert!(solver.solve().is_ok());
    let after = solver.table().possibilities();
    assert!(after <= before);
    assert_eq!(after, 4);
    assert!(solver.table().partitions.len() <= 1);
}

#[test]
fn propagating_twice_changes_nothing() {
    let mut solver = Solvomatic::<Plain>::new();
    for v in 0..3 {
        solver.var(v, (0..=5).collect());
    }
    solver.constraint(vec![0, 1, 2], Rule::Sum(Sum::new(2)));
    solver.constraint(vec![0, 1], Rule::Count(Count::new(vec![(0, 0, 2), (1, 0, 1), (2, 0, 1)])));
    let mut table = solver.table.duplicate();
    let mut done = solver.done.clone();
    assert!(apply_constraints(&mut table, &solver.constraints, &mut done).is_ok());
    let once = shape(&table);
    assert!(apply_constraints(&mut table, &solver.constraints, &mut done).is_ok());
    assert_eq!(shape(&table), once);
    assert_eq!(table.partitions[0].tuples, vec![vec![0], vec![1], vec![2]]);
}

#[test]
fn remap_translates_values() {
    let maps = vec![vec![(1, 10), (1, 11), (2, 20)], vec![]];
    assert_eq!(remap(&maps, 0, 1), 10);
    assert_eq!(remap(&maps, 0, 2), 20);
    assert_eq!(remap(&maps, 0, 3), 3);
    assert_eq!(remap(&maps, 1, 1), 1);
    assert_eq!(remap(&maps, 5, 1), 1);
}

#[test]
fn mapped_constraint_sees_translated_values() {
    // Letters a, b, c stand for 1, 2, 3 before the sum sees them.
    let mut solver = Solvomatic::<Plain>::new();
    let letters = vec!['a' as i32, 'b' as i32, 'c' as i32];
    solver.var(0, letters.clone());
    solver.var(1, letters.clone());
    let map: Vec<(i32, i32)> = letters.iter().zip(1..=3).map(|(l, n)| (*l, n)).collect();
    solver.mapped_constraint(vec![0, 1], vec![map.clone(), map], Rule::Sum(Sum::new(6)));
    assert!(solver.solve().is_ok());
    assert_eq!(solver.table().partitions.len(), 1);
    assert_eq!(solver.table().partitions[0].tuples, vec![vec!['c' as i32, 'c' as i32]]);
}

#[test]
fn solving_nothing_succeeds() {
    let mut solver = Solvomatic::<Plain>::new();
    assert!(solver.solve().is_ok());
    assert_eq!(solver.table().partitions.len(), 0);
    assert_eq!(solver.table().possibilities(), 1);
    assert_eq!(solver.table().size(), 0);
}

#[test]
fn possibilities_saturate() {
    let mut t = Table::new();
    for v in 0..13 {
        t.add_column(v, &(0..1000).collect());
    }
    assert_eq!(t.possibilities(), u128::MAX);
    assert_eq!(t.size(), 13000);
}

#[test]
fn config_round_trip() {
    let mut solver = Solvomatic::<Plain>::new();
    assert!(!solver.config().log_steps);
    let mut config = solver.config();
    config.log_steps = true;
    solver.set_config(config);
    assert!(solver.config().log_steps);
    assert_eq!(solvomatic::solver::Config::default(), solvomatic::solver::Config::new());
}
