use akari::field::{Field, Solution};
use akari::solver::cfs::Watch;
use akari::solver::{CFSwithPB, Solver, CFS};

#[test]
fn cfs_test_solve() {
    let field = Field::from_str(1, 3, ".2.").unwrap();
    let answer = Solution {
        field: vec![vec![true, false, true]],
    };
    assert_eq!(CFS::default().solve(&field), Some(answer));

    let field = Field::from_str(3, 3, "2.1 ... ..0").unwrap();
    let answer = Solution {
        field: vec![
            vec![false, true, false],
            vec![true, false, false],
            vec![false, false, false],
        ],
    };
    assert_eq!(CFS::default().solve(&field), Some(answer));
}

#[test]
fn timeout_interrupts_search() {
    let field = Field::from_str(1, 3, ".2.").unwrap();
    let solver = CFS::new(Some(0));

    assert_eq!(solver.solve(&field), None);
}

#[test]
fn cfs_with_pb_test_solve() {
    let field = Field::from_str(1, 3, ".2.").unwrap();
    let answer = Solution {
        field: vec![vec![true, false, true]],
    };
    assert_eq!(CFSwithPB.solve(&field), Some(answer));

    let field = Field::from_str(3, 3, "2.1 ... ..0").unwrap();
    let answer = Solution {
        field: vec![
            vec![false, true, false],
            vec![true, false, false],
            vec![false, false, false],
        ],
    };
    assert_eq!(CFSwithPB.solve(&field), Some(answer));
}

#[test]
fn a_generous_limit_leaves_time_for_the_answer() {
    let field = Field::from_str(3, 3, "2.1 ... ..0").unwrap();
    let answer = Solution {
        field: vec![
            vec![false, true, false],
            vec![true, false, false],
            vec![false, false, false],
        ],
    };
    assert_eq!(CFS::new(Some(3600)).solve(&field), Some(answer));
}

#[test]
fn timed_out_compares_whole_seconds() {
    assert!(!CFS::timed_out(0, None));
    assert!(!CFS::timed_out(u64::MAX, None));
    assert!(CFS::timed_out(0, Some(0)));
    assert!(!CFS::timed_out(4, Some(5)));
    assert!(CFS::timed_out(5, Some(5)));
    assert!(CFS::timed_out(6, Some(5)));
}

#[test]
fn a_replayed_watch_hands_out_its_readings_in_turn() {
    let mut watch = Watch::replay(vec![1, 3]);
    assert_eq!(watch.read(), 1);
    assert_eq!(watch.read(), 3);
    assert_eq!(watch.read(), 3);
    assert_eq!(watch.read(), 3);

    let mut none = Watch::replay(vec![]);
    assert_eq!(none.read(), 0);
    assert_eq!(none.read(), 0);
}

#[test]
fn readings_below_the_limit_give_the_unlimited_answer() {
    let field = Field::from_str(3, 3, "2.1 ... ..0").unwrap();
    let unlimited = CFS::new(None).solve(&field);
    assert!(unlimited.is_some());
    let timed = CFS::new(Some(5)).solve_by(&field, Watch::replay(vec![0, 1, 2, 4]));
    assert_eq!(timed, unlimited);
    let timed = CFS::new(Some(1)).solve_by(&field, Watch::replay(vec![]));
    assert_eq!(timed, unlimited);
    let timed = CFS::new(None).solve_by(&field, Watch::replay(vec![u64::MAX]));
    assert_eq!(timed, unlimited);

    let hopeless = Field::from_str(1, 3, ".4.").unwrap();
    assert_eq!(CFS::new(Some(5)).solve_by(&hopeless, Watch::replay(vec![4])), None);
}

#[test]
fn a_reading_at_the_limit_stops_the_search() {
    let field = Field::from_str(3, 3, "2.1 ... ..0").unwrap();
    assert_eq!(CFS::new(Some(2)).solve_by(&field, Watch::replay(vec![2])), None);
    assert_eq!(CFS::new(Some(2)).solve_by(&field, Watch::replay(vec![0, 7])), None);
    assert_eq!(CFS::new(Some(0)).solve_by(&field, Watch::replay(vec![])), None);
    // the single cell is judged at the second reading
    let lone = Field::from_str(1, 1, ".").unwrap();
    let lit = Solution { field: vec![vec![true]] };
    assert_eq!(CFS::new(Some(3)).solve_by(&lone, Watch::replay(vec![0, 0, 3])), Some(lit));
    assert_eq!(CFS::new(Some(3)).solve_by(&lone, Watch::replay(vec![0, 3])), None);
}
