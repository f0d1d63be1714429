use akari::field::{Field, Solution, State};
use akari::solver::{Naive, Solver, MISMATCH_AKARI, OVERLAP_AKARI, UNLIT_CELL};

#[test]
fn test_check() {
    let field = Field::from_str(3, 3, "2.1 ... ..0").unwrap();
    let sol = Solution {
        field: vec![
            vec![false, true, false],
            vec![true, false, false],
            vec![false, false, false],
        ],
    };
    assert_eq!(Naive::_check(&field, &sol), Ok(()));

    let field = Field::from_str(3, 3, "2.2 ... ..0").unwrap();
    let sol = Solution {
        field: vec![
            vec![false, true, false],
            vec![true, false, false],
            vec![false, false, false],
        ],
    };
    assert_eq!(Naive::_check(&field, &sol), Err(MISMATCH_AKARI));

    let field = Field {
        h: 3,
        w: 3,
        field: vec![
            vec![State::Adj2, State::Empty, State::Adj2],
            vec![State::Empty, State::Empty, State::Empty],
            vec![State::Empty, State::Empty, State::Empty],
        ],
    };
    let sol = Solution {
        field: vec![
            vec![false, true, false],
            vec![true, false, true],
            vec![false, false, false],
        ],
    };
    assert_eq!(Naive::_check(&field, &sol), Err(OVERLAP_AKARI));

    let field = Field::from_str(3, 3, "2.1 ... ...").unwrap();
    let sol = Solution {
        field: vec![
            vec![false, true, false],
            vec![true, false, false],
            vec![false, false, false],
        ],
    };
    assert_eq!(Naive::_check(&field, &sol), Err(UNLIT_CELL));
}

#[test]
fn naive_test_solve() {
    let field = Field::from_str(1, 3, ".2.").unwrap();
    let answer = Solution {
        field: vec![vec![true, false, true]],
    };
    assert_eq!(Naive.solve(&field), Some(answer));

    let field = Field::from_str(3, 3, "2.1 ... ..0").unwrap();
    let answer = Solution {
        field: vec![
            vec![false, true, false],
            vec![true, false, false],
            vec![false, false, false],
        ],
    };
    assert_eq!(Naive.solve(&field), Some(answer));
}
