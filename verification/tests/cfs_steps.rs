use akari::field::{Field, Solution};
use akari::solver::cfs::{index_choices, numbered_cells, open_fill, Watch};
use akari::solver::{CFSwithPB, Cell, CFS, OVERLAP_AKARI};

fn blank(h: usize, w: usize) -> Solution {
    Solution {
        field: vec![vec![false; w]; h],
    }
}

#[test]
fn choices_come_in_dictionary_order() {
    assert_eq!(index_choices(0), vec![Vec::<usize>::new()]);
    assert_eq!(index_choices(1), vec![vec![0], vec![1], vec![2], vec![3]]);
    assert_eq!(
        index_choices(2),
        vec![
            vec![0, 1],
            vec![0, 2],
            vec![0, 3],
            vec![1, 2],
            vec![1, 3],
            vec![2, 3]
        ]
    );
    assert_eq!(
        index_choices(3),
        vec![vec![0, 1, 2], vec![0, 1, 3], vec![0, 2, 3], vec![1, 2, 3]]
    );
    assert_eq!(index_choices(4), vec![vec![0, 1, 2, 3]]);
    assert_eq!(index_choices(5), Vec::<Vec<usize>>::new());
    assert_eq!(index_choices(usize::MAX), Vec::<Vec<usize>>::new());
}

#[test]
fn numbered_walls_are_listed_in_row_major_order() {
    let field = Field::from_str(3, 3, "2.1 .#. ..0").unwrap();
    assert_eq!(numbered_cells(&field), vec![(0, 0), (0, 2), (2, 2)]);
    let fill = open_fill(&field);
    assert_eq!(fill[0], vec![Cell::Nil, Cell::Fillable, Cell::Nil]);
    assert_eq!(fill[1], vec![Cell::Fillable, Cell::Nil, Cell::Fillable]);
}

#[test]
fn a_light_marks_what_it_shines_on() {
    let field = Field::from_str(3, 4, ".... .#.. ....").unwrap();
    let (sol, fill) = CFS::put_akari(&field, 1, 2, blank(3, 4), open_fill(&field)).unwrap();
    assert_eq!(
        sol.field,
        vec![
            vec![false, false, false, false],
            vec![false, false, true, false],
            vec![false, false, false, false]
        ]
    );
    let lit = Cell::Unfillable(true);
    assert_eq!(
        fill,
        vec![
            vec![Cell::Fillable, Cell::Fillable, lit, Cell::Fillable],
            vec![Cell::Fillable, Cell::Nil, lit, lit],
            vec![Cell::Fillable, Cell::Fillable, lit, Cell::Fillable]
        ]
    );
    // the same light again changes nothing
    let (again, same) = CFS::put_akari(&field, 1, 2, sol.clone(), fill.clone()).unwrap();
    assert_eq!(again, sol);
    assert_eq!(same, fill);
    // a lit cell takes no light
    assert_eq!(
        CFS::put_akari(&field, 1, 3, sol.clone(), fill.clone()),
        Err("Given cell is not fillable.")
    );
    assert_eq!(
        CFSwithPB::put_akari(&field, 0, 2, sol.clone(), fill.clone()),
        Err("Given cell is not fillable.")
    );
    // a wall takes no light
    assert_eq!(
        CFS::put_akari(&field, 1, 1, sol.clone(), fill.clone()),
        Err("Given cell is not fillable.")
    );
}

#[test]
fn a_light_in_sight_of_another_is_refused() {
    let field = Field::from_str(1, 4, "....").unwrap();
    let mut sol = blank(1, 4);
    sol.field[0][3] = true;
    // the state does not know of the light at the end of the row
    assert_eq!(
        CFS::put_akari(&field, 0, 0, sol, open_fill(&field)),
        Err(OVERLAP_AKARI)
    );
}

#[test]
fn a_dark_cell_without_candidates_is_hopeless() {
    let field = Field::from_str(1, 3, "...").unwrap();
    let mut fill = open_fill(&field);
    assert!(!CFS::has_unfeasible_cell(&field, &fill));
    fill[0][0].disable();
    fill[0][1].disable();
    assert!(!CFS::has_unfeasible_cell(&field, &fill));
    fill[0][2].disable();
    assert!(CFS::has_unfeasible_cell(&field, &fill));
    assert!(CFSwithPB::has_unfeasible_cell(&field, &fill));
    // a cell behind a wall is no candidate: it cannot shine on the dark cell
    let field = Field::from_str(1, 3, ".#.").unwrap();
    let fill = vec![vec![Cell::Unfillable(false), Cell::Nil, Cell::Fillable]];
    assert!(CFS::has_unfeasible_cell(&field, &fill));
    assert!(CFSwithPB::has_unfeasible_cell(&field, &fill));
    // a closed cell in between does not hide the candidate
    let field = Field::from_str(1, 3, "...").unwrap();
    let fill = vec![vec![Cell::Unfillable(false), Cell::Unfillable(false), Cell::Fillable]];
    assert!(!CFS::has_unfeasible_cell(&field, &fill));
    // a candidate in the column counts as one in the row does
    let field = Field::from_str(2, 2, ".# .#").unwrap();
    let fill = vec![
        vec![Cell::Unfillable(false), Cell::Nil],
        vec![Cell::Fillable, Cell::Nil],
    ];
    assert!(!CFS::has_unfeasible_cell(&field, &fill));
}

#[test]
fn settling_a_wall_lights_the_picked_neighbours() {
    let field = Field::from_str(3, 3, "... .2. ...").unwrap();
    let pick = vec![0, 3];
    let (sol, fill) = CFS::settle(&field, 1, 1, &pick, &blank(3, 3), &open_fill(&field)).unwrap();
    assert_eq!(
        sol.field,
        vec![
            vec![false, false, false],
            vec![false, false, true],
            vec![false, true, false]
        ]
    );
    let lit = Cell::Unfillable(true);
    let closed = Cell::Unfillable(false);
    assert_eq!(
        fill,
        vec![
            vec![Cell::Fillable, closed, lit],
            vec![closed, Cell::Nil, lit],
            vec![lit, lit, lit]
        ]
    );
    // a picked neighbour off the grid cannot be lit
    let field = Field::from_str(1, 2, "1.").unwrap();
    assert_eq!(
        CFS::settle(&field, 0, 0, &vec![1], &blank(1, 2), &open_fill(&field)),
        None
    );
}

#[test]
fn the_first_stage_lists_every_way_to_settle_the_walls() {
    let field = Field::from_str(1, 3, ".1.").unwrap();
    let walls = numbered_cells(&field);
    let ways = CFSwithPB::enum_constraints(&field, &walls, 0, blank(1, 3), open_fill(&field));
    let lights: Vec<Vec<Vec<bool>>> = ways.iter().map(|(sol, _)| sol.field.clone()).collect();
    assert_eq!(
        lights,
        vec![vec![vec![false, false, true]], vec![vec![true, false, false]]]
    );
    // with no wall left there is one way: the state as it is
    let ways = CFSwithPB::enum_constraints(&field, &walls, 1, blank(1, 3), open_fill(&field));
    assert_eq!(ways.len(), 1);
    assert_eq!(ways[0].0, blank(1, 3));
    assert_eq!(ways[0].1, open_fill(&field));
}

#[test]
fn the_search_runs_on_replayed_readings() {
    let field = Field::from_str(3, 3, "#.# ..# 0.#").unwrap();
    let walls = numbered_cells(&field);
    assert_eq!(walls, vec![(2, 0)]);
    let lone = Solution {
        field: vec![
            vec![false, false, false],
            vec![false, true, false],
            vec![false, false, false],
        ],
    };

    let mut watch = Watch::replay(vec![0]);
    let mut found = None;
    CFS::rec(&field, &walls, 0, 0, blank(3, 3), open_fill(&field), &mut watch, Some(1), &mut found);
    assert_eq!(found, Some(lone.clone()));

    // what was found before is kept
    let mut late = Watch::replay(vec![9]);
    CFS::rec(&field, &walls, 0, 0, blank(3, 3), open_fill(&field), &mut late, Some(1), &mut found);
    assert_eq!(found, Some(lone));

    // a reading at the limit ends the search at once
    let mut late = Watch::replay(vec![1]);
    let mut nothing = None;
    CFS::rec(&field, &walls, 0, 0, blank(3, 3), open_fill(&field), &mut late, Some(1), &mut nothing);
    assert_eq!(nothing, None);
}
