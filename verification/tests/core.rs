use std::collections::VecDeque;

use akari::field::{Field, Solution};
use akari::solver::fast::{CellState, Core};

/// Everything of the state that an edit may change.
type Seen = (
    Vec<CellState>,
    Vec<(Option<usize>, usize)>,
    Vec<(Option<usize>, usize)>,
    Vec<usize>,
    Vec<(usize, usize)>,
    usize,
);

fn seen(core: &Core) -> Seen {
    (
        core.cell_state.clone(),
        core.row_segs.iter().map(|s| (s.light, s.free_cnt)).collect(),
        core.col_segs.iter().map(|s| (s.light, s.free_cnt)).collect(),
        core.lit_count.clone(),
        core.num_cells.iter().map(|n| (n.on, n.unk)).collect(),
        core.trail.len(),
    )
}

#[test]
fn segments_follow_the_walls() {
    let field = Field::from_str(3, 3, "2.1 ... ..0").unwrap();
    let core = Core::new(&field);
    assert_eq!(core.n_empty, 6);
    assert_eq!(
        core.empty_pos,
        vec![(0, 1), (1, 0), (1, 1), (1, 2), (2, 0), (2, 1)]
    );
    let rows: Vec<Vec<usize>> = core.row_segs.iter().map(|s| s.cells.clone()).collect();
    assert_eq!(rows, vec![vec![0], vec![1, 2, 3], vec![4, 5]]);
    let cols: Vec<Vec<usize>> = core.col_segs.iter().map(|s| s.cells.clone()).collect();
    assert_eq!(cols, vec![vec![1, 4], vec![0, 2, 5], vec![3]]);
    assert_eq!(core.row_seg_id, vec![0, 1, 1, 1, 2, 2]);
    assert_eq!(core.col_seg_id, vec![1, 0, 1, 2, 0, 1]);
    let walls: Vec<(usize, Vec<usize>, usize, usize)> = core
        .num_cells
        .iter()
        .map(|n| (n.value, n.adj.clone(), n.on, n.unk))
        .collect();
    assert_eq!(
        walls,
        vec![
            (2, vec![0, 1], 0, 2),
            (1, vec![0, 3], 0, 2),
            (0, vec![3, 5], 0, 2)
        ]
    );
    assert_eq!(
        core.num_adj_of_empty,
        vec![vec![0, 1], vec![0], vec![], vec![1, 2], vec![], vec![2]]
    );
    assert_eq!(core.lit_list[2], vec![1, 2, 3, 0, 5]);
    assert_eq!(core.lit_list[0], vec![0, 2, 5]);
    assert!(core.cell_state.iter().all(|s| *s == CellState::Unknown));
    assert!(core.lit_count.iter().all(|n| *n == 0));
    assert_eq!(core.checkpoint(), 0);
}

#[test]
fn a_light_blocks_its_segments_and_counts() {
    let field = Field::from_str(3, 3, "2.1 ... ..0").unwrap();
    let mut core = Core::new(&field);
    let mut q = VecDeque::new();
    assert!(core.set_light(2, &mut q));
    assert_eq!(
        core.cell_state,
        vec![
            CellState::Blocked,
            CellState::Blocked,
            CellState::Light,
            CellState::Blocked,
            CellState::Unknown,
            CellState::Blocked
        ]
    );
    assert_eq!(core.lit_count, vec![1, 1, 1, 1, 0, 1]);
    assert_eq!(core.row_segs[1].light, Some(2));
    assert_eq!(core.col_segs[1].light, Some(2));
    assert_eq!(core.row_segs[1].free_cnt, 1);
    assert_eq!(core.col_segs[1].free_cnt, 1);
    assert_eq!(core.row_segs[0].free_cnt, 0);
    assert_eq!(core.row_segs[2].free_cnt, 1);
    let walls: Vec<(usize, usize)> = core.num_cells.iter().map(|n| (n.on, n.unk)).collect();
    assert_eq!(walls, vec![(0, 0), (0, 0), (0, 0)]);
    // a second light in the same segment is refused, a light on itself is kept
    assert!(!core.set_light(1, &mut q));
    assert!(core.set_light(2, &mut q));
    // blocking a light is refused, blocking a blocked cell is kept
    assert!(!core.set_blocked(2, &mut q));
    assert!(core.set_blocked(1, &mut q));
}

#[test]
fn undo_gives_back_the_state_at_the_checkpoint() {
    let field = Field::from_str(4, 5, "..1.. #.01. 3.24. .....").unwrap();
    let mut core = Core::new(&field);
    let mut q = VecDeque::new();
    assert!(core.set_blocked(0, &mut q));
    let cp = core.checkpoint();
    let at_checkpoint = seen(&core);
    assert!(core.set_light(1, &mut q));
    assert!(core.set_blocked(9, &mut q));
    let inner = core.checkpoint();
    let at_inner = seen(&core);
    // an edit that fails part-way still undoes cleanly
    let _ = core.set_light(3, &mut q);
    let _ = core.set_light(5, &mut q);
    let _ = core.set_blocked(12, &mut q);
    assert_ne!(seen(&core), at_inner);
    core.undo(inner);
    assert_eq!(seen(&core), at_inner);
    core.undo(cp);
    assert_eq!(seen(&core), at_checkpoint);
    // undoing to a later mark changes nothing
    core.undo(cp + 10);
    assert_eq!(seen(&core), at_checkpoint);
    core.undo(0);
    let fresh = Core::new(&field);
    assert_eq!(seen(&core), seen(&fresh));
}

#[test]
fn propagation_settles_forced_cells() {
    let field = Field::from_str(1, 3, ".2.").unwrap();
    let mut core = Core::new(&field);
    assert!(!core.is_solved());
    assert!(core.propagate());
    assert_eq!(core.cell_state, vec![CellState::Light, CellState::Light]);
    assert!(core.is_solved());
    assert_eq!(
        core.to_solution(&field),
        Solution {
            field: vec![vec![true, false, true]]
        }
    );
    assert_eq!(core.choose_branch_cell(), None);

    let field = Field::from_str(1, 3, ".4.").unwrap();
    let mut core = Core::new(&field);
    assert!(!core.propagate());

    let field = Field::from_str(1, 3, "0..").unwrap();
    let mut core = Core::new(&field);
    assert!(core.propagate());
    assert_eq!(core.cell_state, vec![CellState::Blocked, CellState::Light]);
}

#[test]
fn branching_takes_the_cell_with_the_fewest_candidates() {
    let field = Field::from_str(2, 3, "... .#.").unwrap();
    let mut core = Core::new(&field);
    assert!(core.propagate());
    // cells 3 and 4 have two candidates each, the others more: the first of the two wins
    assert_eq!(core.choose_branch_cell(), Some(vec![3, 0]));
    assert_eq!(core.find_single_candidate(0, 1), None);
    let mut q = VecDeque::new();
    assert!(core.set_blocked(0, &mut q));
    assert!(core.set_blocked(2, &mut q));
    assert_eq!(core.find_single_candidate(0, 1), Some(1));
    // the blocked corner is dark and can be lit from its row or from its column
    assert_eq!(core.choose_branch_cell(), Some(vec![1, 3]));
    assert!(core.dfs());
    assert!(core.is_solved());
}

#[test]
fn search_finds_a_solution_or_leaves_the_state_alone() {
    let field = Field::from_str(3, 3, "... ... ...").unwrap();
    let mut core = Core::new(&field);
    assert!(core.dfs());
    assert!(core.is_solved());
    let sol = core.to_solution(&field);
    assert_eq!(akari::solver::check(&field, &sol), Ok(()));

    let field = Field::from_str(2, 2, "3. ..").unwrap();
    let mut core = Core::new(&field);
    let before = seen(&core);
    assert!(!core.dfs());
    assert_eq!(core.cell_state.len(), before.0.len());
}
