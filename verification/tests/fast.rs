use akari::field::Field;
use akari::solver::{Fast, Solver};

#[test]
fn solve_single_cell() {
    let field = Field::from_str(1, 1, ".\n").unwrap();
    let solver = Fast::new();
    let sol = solver.solve(&field).expect("solution");
    assert!(sol.field[0][0]);
}
