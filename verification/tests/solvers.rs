use akari::field::{Field, Solution, State};
use akari::solver::{
    check, CFSwithPB, Fast, Naive, Solver, CFS, MISMATCH_AKARI, OVERLAP_AKARI, UNLIT_CELL,
};

fn kinds() -> [State; 7] {
    [
        State::Nil,
        State::Empty,
        State::Adj0,
        State::Adj1,
        State::Adj2,
        State::Adj3,
        State::Adj4,
    ]
}

/// The `index`-th field of the given size over the first `base` cell kinds.
fn nth_field(h: usize, w: usize, base: usize, mut index: usize) -> Field {
    let all = kinds();
    let mut field = Vec::new();
    for _ in 0..h {
        let mut row = Vec::new();
        for _ in 0..w {
            row.push(all[index % base]);
            index /= base;
        }
        field.push(row);
    }
    Field { h, w, field }
}

fn agree_on(h: usize, w: usize, base: usize) {
    let mut count = 1;
    for _ in 0..h * w {
        count *= base;
    }
    for index in 0..count {
        let field = nth_field(h, w, base, index);
        let naive = Naive.solve(&field);
        let fast = Fast::new().solve(&field);
        let cfs = CFS::default().solve(&field);
        let staged = CFSwithPB.solve(&field);
        assert_eq!(naive.is_some(), fast.is_some(), "{field:?}");
        assert_eq!(naive.is_some(), cfs.is_some(), "{field:?}");
        assert_eq!(naive.is_some(), staged.is_some(), "{field:?}");
        for sol in [naive, fast, cfs, staged].into_iter().flatten() {
            assert_eq!(check(&field, &sol), Ok(()), "{field:?}");
        }
    }
}

#[test]
fn solvers_agree_on_single_rows() {
    agree_on(1, 1, 7);
    agree_on(1, 2, 7);
    agree_on(1, 3, 7);
    agree_on(1, 4, 7);
}

#[test]
fn solvers_agree_on_single_columns() {
    agree_on(2, 1, 7);
    agree_on(3, 1, 7);
    agree_on(4, 1, 7);
}

#[test]
fn solvers_agree_on_two_by_two() {
    agree_on(2, 2, 7);
}

#[test]
fn solvers_agree_on_two_by_three() {
    agree_on(2, 3, 4);
    agree_on(3, 2, 4);
}

#[test]
fn fast_solves_the_small_examples() {
    let field = Field::from_str(1, 3, ".2.").unwrap();
    let answer = Solution {
        field: vec![vec![true, false, true]],
    };
    assert_eq!(Fast::new().solve(&field), Some(answer));

    let field = Field::from_str(3, 3, "2.1 ... ..0").unwrap();
    let answer = Solution {
        field: vec![
            vec![false, true, false],
            vec![true, false, false],
            vec![false, false, false],
        ],
    };
    assert_eq!(Fast::new().solve(&field), Some(answer));
}

#[test]
fn every_solver_solves_a_larger_puzzle() {
    let text = "
..1..
#.01.
3.24.
.....
";
    let field = Field::from_str(4, 5, text).unwrap();
    let fast = Fast::new().solve(&field);
    let cfs = CFS::new(Some(60)).solve(&field);
    let staged = CFSwithPB.solve(&field);
    let naive = Naive.solve(&field);
    assert_eq!(fast.is_some(), naive.is_some());
    assert_eq!(cfs.is_some(), naive.is_some());
    assert_eq!(staged.is_some(), naive.is_some());
    for sol in [fast, cfs, staged, naive].into_iter().flatten() {
        assert_eq!(check(&field, &sol), Ok(()));
    }
}

#[test]
fn fast_solves_a_seven_by_seven_puzzle() {
    let text = "
...1...
.#...#.
..2.0..
1.....1
..1.2..
.#...#.
...0...
";
    let field = Field::from_str(7, 7, text).unwrap();
    match Fast::new().solve(&field) {
        Some(sol) => assert_eq!(check(&field, &sol), Ok(())),
        None => assert_eq!(CFS::default().solve(&field), None),
    }
}

#[test]
fn a_wall_that_asks_too_much_has_no_answer() {
    let field = Field::from_str(1, 3, ".4.").unwrap();
    assert_eq!(Naive.solve(&field), None);
    assert_eq!(Fast::new().solve(&field), None);
    assert_eq!(CFS::default().solve(&field), None);
    assert_eq!(CFSwithPB.solve(&field), None);

    let field = Field::from_str(3, 3, "2.2 ... ..0").unwrap();
    let naive = Naive.solve(&field);
    assert_eq!(Fast::new().solve(&field).is_some(), naive.is_some());
    assert_eq!(CFS::default().solve(&field).is_some(), naive.is_some());
}

#[test]
fn a_field_without_cells_is_solved_by_nothing() {
    let field = Field::from_str(0, 0, "").unwrap();
    let nothing = Solution { field: vec![] };
    assert_eq!(Naive.solve(&field), Some(nothing.clone()));
    assert_eq!(Fast::new().solve(&field), Some(nothing.clone()));
    assert_eq!(CFS::default().solve(&field), Some(nothing.clone()));
    assert_eq!(CFSwithPB.solve(&field), Some(nothing));
}

#[test]
fn a_field_of_walls_needs_no_light() {
    let field = Field::from_str(2, 2, "#0 0#").unwrap();
    let dark = Solution {
        field: vec![vec![false, false], vec![false, false]],
    };
    assert_eq!(Naive.solve(&field), Some(dark.clone()));
    assert_eq!(Fast::new().solve(&field), Some(dark.clone()));
    assert_eq!(CFS::default().solve(&field), Some(dark.clone()));
    assert_eq!(CFSwithPB.solve(&field), Some(dark));
}

#[test]
fn single_empty_cell_must_hold_the_light() {
    let field = Field::from_str(1, 1, ".").unwrap();
    let lit = Solution {
        field: vec![vec![true]],
    };
    assert_eq!(Naive.solve(&field), Some(lit.clone()));
    assert_eq!(Fast::new().solve(&field), Some(lit.clone()));
    assert_eq!(CFS::default().solve(&field), Some(lit.clone()));
    assert_eq!(CFSwithPB.solve(&field), Some(lit.clone()));
    assert_eq!(check(&field, &lit), Ok(()));
    let dark = Solution {
        field: vec![vec![false]],
    };
    assert_eq!(check(&field, &dark), Err(UNLIT_CELL));
}

#[test]
fn the_verifier_gives_the_same_verdict_again() {
    let field = Field::from_str(3, 3, "2.1 ... ..0").unwrap();
    let good = Solution {
        field: vec![
            vec![false, true, false],
            vec![true, false, false],
            vec![false, false, false],
        ],
    };
    let bad = Solution {
        field: vec![
            vec![false, true, false],
            vec![true, false, true],
            vec![false, false, false],
        ],
    };
    for sol in [&good, &bad] {
        let first = check(&field, sol);
        let second = check(&field, sol);
        assert_eq!(first, second);
        assert_eq!(Naive::_check(&field, sol), first);
    }
    assert_eq!(check(&field, &good), Ok(()));
}

#[test]
fn walls_are_judged_before_overlaps_before_dark_cells() {
    // a light on a wall
    let field = Field::from_str(1, 3, ".#.").unwrap();
    let on_wall = Solution {
        field: vec![vec![true, true, true]],
    };
    assert_eq!(check(&field, &on_wall), Err(MISMATCH_AKARI));
    // a wrong count and an overlap: the count is reported
    let field = Field::from_str(2, 3, "... 0..").unwrap();
    let both = Solution {
        field: vec![vec![true, false, true], vec![false, false, false]],
    };
    assert_eq!(check(&field, &both), Err(MISMATCH_AKARI));
    // an overlap and a dark cell: the overlap is reported
    let field = Field::from_str(2, 3, "... #.#").unwrap();
    let crossing = Solution {
        field: vec![vec![true, false, true], vec![false, false, false]],
    };
    assert_eq!(check(&field, &crossing), Err(OVERLAP_AKARI));
    // lights on both sides of a wall do not see each other
    let field = Field::from_str(1, 3, ".#.").unwrap();
    let apart = Solution {
        field: vec![vec![true, false, true]],
    };
    assert_eq!(check(&field, &apart), Ok(()));
    // a numbered wall stops the light as well
    let field = Field::from_str(1, 4, ".1..").unwrap();
    let one = Solution {
        field: vec![vec![true, false, false, false]],
    };
    assert_eq!(check(&field, &one), Err(UNLIT_CELL));
}

#[test]
fn lights_are_listed_in_row_major_order() {
    let sol = Solution {
        field: vec![
            vec![false, true, true],
            vec![true, false, false],
            vec![false, false, true],
        ],
    };
    assert_eq!(sol.akari_indices(), vec![(0, 1), (0, 2), (1, 0), (2, 2)]);
    let none = Solution { field: vec![vec![false; 2]; 2] };
    assert_eq!(none.akari_indices(), Vec::<(usize, usize)>::new());
    assert_eq!(sol.duplicate(), sol);
}

#[test]
fn the_verifier_accepts_the_known_answers() {
    let field = Field::from_str(1, 3, ".2.").unwrap();
    let answer = Solution {
        field: vec![vec![true, false, true]],
    };
    assert_eq!(check(&field, &answer), Ok(()));
    let field = Field::from_str(3, 3, "2.1 ... ..0").unwrap();
    let answer = Solution {
        field: vec![
            vec![false, true, false],
            vec![true, false, false],
            vec![false, false, false],
        ],
    };
    assert_eq!(check(&field, &answer), Ok(()));
    // the same lights do not satisfy a second `2`
    let field = Field::from_str(3, 3, "2.2 ... ..0").unwrap();
    assert_eq!(check(&field, &answer), Err(MISMATCH_AKARI));
}

#[test]
fn the_searches_put_each_light_as_early_as_they_can() {
    let field = Field::from_str(2, 2, ".. ..").unwrap();
    let first = Solution {
        field: vec![vec![true, false], vec![false, true]],
    };
    assert_eq!(Naive.solve(&field), Some(first.clone()));
    assert_eq!(CFS::default().solve(&field), Some(first.clone()));
    assert_eq!(CFSwithPB.solve(&field), Some(first));

    let field = Field::from_str(3, 3, "... ... ...").unwrap();
    let diagonal = Solution {
        field: vec![
            vec![true, false, false],
            vec![false, true, false],
            vec![false, false, true],
        ],
    };
    assert_eq!(Naive.solve(&field), Some(diagonal.clone()));
    assert_eq!(CFS::default().solve(&field), Some(diagonal.clone()));
    assert_eq!(CFSwithPB.solve(&field), Some(diagonal));
}

#[test]
fn the_walls_are_settled_before_the_cells() {
    let field = Field::from_str(2, 3, ".1. ...").unwrap();
    // the wall is settled to its right first, so its light stands there
    let right = Solution {
        field: vec![vec![false, false, true], vec![true, false, false]],
    };
    assert_eq!(CFS::default().solve(&field), Some(right.clone()));
    assert_eq!(CFSwithPB.solve(&field), Some(right));
    // the plain search goes by the cells alone, so the first cell gets it
    let left = Solution {
        field: vec![vec![true, false, false], vec![false, false, true]],
    };
    assert_eq!(Naive.solve(&field), Some(left));
}
