use solvomatic::state::State;
use solvomatic::table::Table;

struct Board(Vec<Option<i32>>);

impl State for Board {
    fn set(&mut self, var: usize, val: i32) {
        self.0[var] = Some(val);
    }
}

fn table() -> Table {
    let mut t = Table::new();
    t.add_column(0, &vec![4]);
    t.add_column(1, &vec![1, 2]);
    t.add_column(2, &vec![7]);
    t
}

#[test]
fn known_values_come_from_single_tuples() {
    let mut t = table();
    assert_eq!(t.known_values(), vec![(0, 4), (2, 7)]);
    t.merge(0, 2);
    assert_eq!(t.known_values(), vec![(0, 4), (2, 7)]);
}

#[test]
fn into_state_fills_known_cells() {
    let board = table().into_state(Board(vec![None; 3]));
    assert_eq!(board.0, vec![Some(4), None, Some(7)]);
}
