use solvomatic::interval::Sum;
use solvomatic::permutation::Permutation;
use solvomatic::pred::Pred;
use solvomatic::rule::Rule;
use solvomatic::sequence::AllowedSeq;
use solvomatic::solver::Solvomatic;
use solvomatic::table::Table;

type Check = Box<dyn Fn(&[i32]) -> bool>;

/// Every assignment the table still allows, as (variable, value) pairs sorted by variable.
fn assignments(table: &Table) -> Vec<Vec<(usize, i32)>> {
    let mut all: Vec<Vec<(usize, i32)>> = vec![vec![]];
    for part in &table.partitions {
        let mut next = Vec::new();
        for prefix in &all {
            for tuple in &part.tuples {
                let mut a = prefix.clone();
                for (var, val) in part.header.iter().zip(tuple.iter()) {
                    a.push((*var, *val));
                }
                next.push(a);
            }
        }
        all = next;
    }
    for a in all.iter_mut() {
        a.sort();
    }
    all.sort();
    all
}

fn equals(n: i32) -> Rule<Check> {
    Rule::Pred(Pred::new::<1>(Box::new(move |v: &[i32]| v[0] == n)))
}

fn same() -> Rule<Check> {
    Rule::Pred(Pred::new::<2>(Box::new(|v: &[i32]| v[0] == v[1])))
}

#[test]
fn sum_of_two_digits() {
    let mut solver = Solvomatic::<Check>::new();
    solver.var(0, (1..=9).collect());
    solver.var(1, (0..=9).collect());
    solver.constraint(vec![0, 1], Rule::Sum(Sum::new(3)));
    assert!(solver.solve().is_ok());
    assert!(solver.table().partitions.len() <= 1);
    assert_eq!(
        assignments(solver.table()),
        vec![vec![(0, 1), (1, 2)], vec![(0, 2), (1, 1)], vec![(0, 3), (1, 0)]]
    );
}

#[test]
fn hard_sudoku() {
    let mut solver = Solvomatic::<Check>::new();
    let cell = |i: usize, j: usize| i * 9 + j;
    for i in 0..9 {
        for j in 0..9 {
            solver.var(cell(i, j), (1..=9).collect());
        }
    }
    for i in 0..9 {
        solver.constraint((0..9).map(|j| cell(i, j)).collect(), Rule::Permutation(Permutation::new((1..=9).collect())));
    }
    for j in 0..9 {
        solver.constraint((0..9).map(|i| cell(i, j)).collect(), Rule::Permutation(Permutation::new((1..=9).collect())));
    }
    for bi in 0..3 {
        for bj in 0..3 {
            let mut cells = Vec::new();
            for i in 0..3 {
                for j in 0..3 {
                    cells.push(cell(bi * 3 + i, bj * 3 + j));
                }
            }
            solver.constraint(cells, Rule::Permutation(Permutation::new((1..=9).collect())));
        }
    }
    let prefilled: &[(usize, usize, i32)] = &[
        (1, 3, 5), (2, 1, 6), (1, 4, 9), (2, 5, 5),
        (2, 6, 3), (3, 4, 2), (1, 7, 4), (2, 7, 8),
        (3, 9, 3), (4, 5, 9), (5, 1, 2), (5, 8, 4),
        (6, 3, 4), (6, 5, 8), (6, 6, 5), (6, 9, 1),
        (7, 3, 2), (7, 5, 4), (7, 6, 1), (7, 9, 8),
        (8, 2, 7), (8, 7, 6), (9, 4, 3),
    ];
    for (i, j, n) in prefilled {
        solver.constraint(vec![cell(i - 1, j - 1)], equals(*n));
    }
    assert!(solver.solve().is_ok());
    let solutions = assignments(solver.table());
    assert_eq!(solutions.len(), 1);
    let expected = [
        "325918467", "649753812", "817264593", "531492786", "286137945", "794685231", "962541378",
        "173829654", "458376129",
    ];
    for (var, val) in &solutions[0] {
        let digit = expected[var / 9].as_bytes()[var % 9] - b'0';
        assert_eq!(*val, digit as i32);
    }
}

fn palindromes(words: &[&str]) -> Result<Vec<String>, ()> {
    let mut solver = Solvomatic::<Check>::new();
    for i in 0..5 {
        solver.var(i, ('a'..='z').map(|c| c as i32).collect());
    }
    let list = words.iter().map(|w| w.chars().map(|c| c as i32).collect()).collect();
    solver.constraint((0..5).collect(), Rule::Words(AllowedSeq::new(5, list)));
    solver.constraint(vec![0, 4], same());
    solver.constraint(vec![1, 3], same());
    solver.solve().map_err(|_| ())?;
    Ok(assignments(solver.table())
        .into_iter()
        .map(|a| a.into_iter().map(|(_, v)| char::from_u32(v as u32).unwrap()).collect())
        .collect())
}

#[test]
fn palindromic_words() {
    assert_eq!(palindromes(&["abcba", "civic"]), Ok(vec!["abcba".to_string(), "civic".to_string()]));
    assert_eq!(palindromes(&["abcba", "hello", "civic", "world"]), Ok(vec!["abcba".to_string(), "civic".to_string()]));
    assert_eq!(palindromes(&["hello", "world"]), Err(()));
}

#[test]
fn unsatisfiable_sum() {
    let mut solver = Solvomatic::<Check>::new();
    solver.var(0, vec![1]);
    solver.var(1, vec![1]);
    solver.constraint(vec![0, 1], Rule::Sum(Sum::new(5)));
    let err = match solver.solve() {
        Err(e) => e,
        Ok(()) => panic!("expected no solution"),
    };
    assert_eq!(err.name, "Sum");
    assert_eq!(err.params, vec![0, 1]);
    assert_eq!(err.table.partitions.len(), 2);
    for part in &err.table.partitions {
        assert_eq!(part.tuples, vec![vec![1]]);
    }
}
