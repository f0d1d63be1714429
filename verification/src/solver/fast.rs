//! The fast solver: rows and columns are cut into segments of empty cells,
//! every change of state is written to a trail so that it can be undone,
//! and forced moves are propagated before the search branches.

use vstd::prelude::*;
use crate::field::{Board, Field, Solution};
use crate::solver::{answers, solves, Solver};
use crate::solver::follow::follows;

pub mod branch;
pub mod chart;
pub mod lists;
pub mod rules;
pub mod search;
pub mod sight;
pub mod trail;

pub use self::branch::{
    branchable, cand_count, candidates, free_of, gather, is_candidate, lemma_candidate_unknown,
    lemma_candidates_shape, lemma_free_of_members, lemma_gather_members, solved, uncovered,
};
pub use self::chart::{
    adj_of, cells_of, charted, coords, cut_ok, cut_so_far, has_run, id_at, is_run, is_wall,
    joined, lemma_cut_done, lemma_line_ends, lemma_numbered_placed, lemma_run_closes,
    lemma_run_grows, lemma_run_no_dups, lemma_run_starts, lemma_walk_skips, listed_at, lists_of,
    neighbor_ids, neighbor_ids_upto, next_along, numbered, opt_id, place, placed, precedes,
    rising, segs_in_order, starts_before, value_of, walked, wall_is, walls_in_order,
    walls_listed, walls_ok, walls_placed, walls_real,
};
pub use self::lists::{
    below, count_all, count_in, lemma_count_all_shrinks, lemma_count_all_update, lemma_count_fresh,
    lemma_count_in_bound, lemma_count_in_concat, lemma_count_in_positive, lemma_count_in_room,
    lemma_count_in_update, lemma_member_concat, lemma_push_member, lemma_pushed,
    lemma_refines_chain, lemma_take_fresh, lemma_take_member, lemma_unknowns_chain,
    lemma_unknowns_drop, member, no_dups, one_when, refines,
};
pub use self::rules::{
    advanced, can_light, counts_ok, in_segment_of, layout_ok, lemma_advanced_chain,
    lemma_advanced_same, lemma_advanced_self, lemma_advanced_walls, lemma_blocked_sound,
    lemma_lit_settled, lemma_lit_sound, lemma_named_sound, lemma_quiet_kept,
    lemma_settled_can_light, lights_ok, lit_state, others_blocked, queue_ok, quiet_outside,
    quiet_wall, same_segment, sound, tidy, wall_same,
};
pub use self::sight::{
    in_sight, lemma_all_lit, lemma_linked, lemma_neighbor_count, lemma_no_clash,
    lemma_segment_sight, lemma_solved_solves, lights_in, lights_of,
};
pub use self::trail::{
    action_ok, extends, lemma_extends_chain, lemma_extends_self, lemma_one_edit,
    lemma_rewind_twice, lemma_undo_restores, rewind, sized, undo_one,
};

verus! {

/// What is known about an empty cell.
#[derive(Clone, Copy, Debug, PartialEq, Eq, Structural)]
pub enum CellState {
    Unknown,
    Light,
    Blocked,
}

/// A maximal run of empty cells along a row or a column.
#[derive(Clone, Debug)]
pub struct Segment {
    /// The cells of the run, in order.
    pub cells: Vec<usize>,
    /// The light of the run, once it is known.
    pub light: Option<usize>,
    /// How many cells of the run are not blocked.
    pub free_cnt: usize,
}

/// A numbered wall.
#[derive(Clone, Debug)]
pub struct NumCell {
    /// The number of lights wanted.
    pub value: usize,
    /// The empty cells beside the wall.
    pub adj: Vec<usize>,
    /// How many of them hold a light.
    pub on: usize,
    /// How many of them are still unknown.
    pub unk: usize,
}

/// One entry of the trail: a place and the value it held before a change.
#[derive(Clone, Copy, Debug)]
pub enum Action {
    CellState { idx: usize, prev: CellState },
    RowLight { seg: usize, prev: Option<usize> },
    ColLight { seg: usize, prev: Option<usize> },
    RowFree { seg: usize, prev: usize },
    ColFree { seg: usize, prev: usize },
    LitCount { idx: usize, prev: usize },
    NumOn { idx: usize, prev: usize },
    NumUnk { idx: usize, prev: usize },
}

/// The working state of one solve.
pub struct Core {
    pub n_empty: usize,
    pub empty_pos: Vec<(usize, usize)>,
    pub row_seg_id: Vec<usize>,
    pub col_seg_id: Vec<usize>,
    pub row_segs: Vec<Segment>,
    pub col_segs: Vec<Segment>,
    pub num_cells: Vec<NumCell>,
    pub num_adj_of_empty: Vec<Vec<usize>>,
    pub lit_list: Vec<Vec<usize>>,
    pub lit_count: Vec<usize>,
    pub cell_state: Vec<CellState>,
    pub trail: Vec<Action>,
    /// The board that the state was built for.
    pub board: Ghost<Board>,
}

/// The part of the state that never changes during a solve.
pub struct Layout {
    pub n: nat,
    pub empty_pos: Seq<(usize, usize)>,
    pub row_seg_id: Seq<usize>,
    pub col_seg_id: Seq<usize>,
    pub row_cells: Seq<Seq<usize>>,
    pub col_cells: Seq<Seq<usize>>,
    pub num_value: Seq<usize>,
    pub num_adj: Seq<Seq<usize>>,
    pub num_adj_of_empty: Seq<Seq<usize>>,
    pub lit_list: Seq<Seq<usize>>,
    pub board: Board,
}

/// Everything that an edit can change, and that undoing restores.
pub struct Snapshot {
    pub cell_state: Seq<CellState>,
    pub row_light: Seq<Option<usize>>,
    pub col_light: Seq<Option<usize>>,
    pub row_free: Seq<usize>,
    pub col_free: Seq<usize>,
    pub lit_count: Seq<usize>,
    pub num_on: Seq<usize>,
    pub num_unk: Seq<usize>,
    pub trail: Seq<Action>,
}

impl Core {
    /// The fixed part of the state.
    pub open spec fn layout(&self) -> Layout {
        Layout {
            n: self.n_empty as nat,
            empty_pos: self.empty_pos@,
            row_seg_id: self.row_seg_id@,
            col_seg_id: self.col_seg_id@,
            row_cells: Seq::new(self.row_segs@.len(), |s: int| self.row_segs@[s].cells@),
            col_cells: Seq::new(self.col_segs@.len(), |s: int| self.col_segs@[s].cells@),
            num_value: Seq::new(self.num_cells@.len(), |k: int| self.num_cells@[k].value),
            num_adj: Seq::new(self.num_cells@.len(), |k: int| self.num_cells@[k].adj@),
            num_adj_of_empty: Seq::new(
                self.num_adj_of_empty@.len(),
                |x: int| self.num_adj_of_empty@[x]@,
            ),
            lit_list: Seq::new(self.lit_list@.len(), |x: int| self.lit_list@[x]@),
            board: self.board@,
        }
    }

    /// The changing part of the state.
    pub open spec fn snapshot(&self) -> Snapshot {
        Snapshot {
            cell_state: self.cell_state@,
            row_light: Seq::new(self.row_segs@.len(), |s: int| self.row_segs@[s].light),
            col_light: Seq::new(self.col_segs@.len(), |s: int| self.col_segs@[s].light),
            row_free: Seq::new(self.row_segs@.len(), |s: int| self.row_segs@[s].free_cnt),
            col_free: Seq::new(self.col_segs@.len(), |s: int| self.col_segs@[s].free_cnt),
            lit_count: self.lit_count@,
            num_on: Seq::new(self.num_cells@.len(), |k: int| self.num_cells@[k].on),
            num_unk: Seq::new(self.num_cells@.len(), |k: int| self.num_cells@[k].unk),
            trail: self.trail@,
        }
    }
}

/// The fast solver.
#[derive(Clone, Copy, Debug, Default)]
pub struct Fast;

impl Fast {
    /// The solver; it has no settings.
    pub fn new() -> Self {
        Self
    }
}

impl Solver for Fast {
    /// A solution is found exactly when the puzzle has one.
    fn solve(&self, field: &Field) -> (res: Option<Solution>)
        ensures
            answers(field@, res),
    {
        let mut core = Core::new(field);
        proof {
            if crate::solver::solvable(field@) {
                let lights = choose|lights: Seq<Seq<bool>>| solves(field@, lights);
                assert(follows(core.layout(), core.snapshot(), lights));
            }
        }
        if core.dfs() {
            proof {
                lemma_solved_solves(core.layout(), core.snapshot(), field@);
            }
            Some(core.to_solution(field))
        } else {
            None
        }
    }
}

} // verus!
