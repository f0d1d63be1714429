//! Candidates for lighting a dark cell, and the choice of the cell to branch on.

use vstd::prelude::*;
use crate::solver::fast::{
    count_in, lemma_count_in_room, member, one_when, same_segment, sound, tidy, CellState, Core,
    Layout, Snapshot,
};

verus! {

/// `x` is a cell of row segment `rseg` or of column segment `cseg` that is not blocked.
pub open spec fn is_candidate(l: Layout, s: Snapshot, rseg: int, cseg: int, x: int) -> bool {
    &&& 0 <= x < l.n
    &&& l.row_seg_id[x] == rseg || l.col_seg_id[x] == cseg
    &&& s.cell_state[x] != CellState::Blocked
}

/// All cells are lit and every wall has its number of lights.
pub open spec fn solved(l: Layout, s: Snapshot) -> bool {
    &&& forall|x: int| 0 <= x < l.n ==> (#[trigger] s.lit_count[x]) > 0
    &&& forall|k: int| 0 <= k < l.num_adj.len() ==> (#[trigger] s.num_on[k]) == l.num_value[k]
}

/// The cell is dark and neither of its segments has a light.
pub open spec fn uncovered(l: Layout, s: Snapshot, x: int) -> bool {
    &&& s.lit_count[x] == 0
    &&& s.row_light[l.row_seg_id[x] as int] is None
    &&& s.col_light[l.col_seg_id[x] as int] is None
}

/// The number of cells that could still light `x`: the free cells of its
/// two segments, `x` itself counted once.
pub open spec fn cand_count(l: Layout, s: Snapshot, x: int) -> int {
    s.row_free[l.row_seg_id[x] as int] + s.col_free[l.col_seg_id[x] as int] - one_when(
        s.cell_state[x] != CellState::Blocked,
    )
}

/// The cell is one to branch on: dark, uncovered, with at least two candidates.
pub open spec fn branchable(l: Layout, s: Snapshot, x: int) -> bool {
    0 <= x < l.n && uncovered(l, s, x) && cand_count(l, s, x) >= 2
}

/// The cells of `ids` that are not blocked, in order.
pub open spec fn free_of(ids: Seq<usize>, st: Seq<CellState>) -> Seq<usize>
    decreases ids.len(),
{
    if ids.len() == 0 {
        Seq::empty()
    } else {
        let front = free_of(ids.drop_last(), st);
        if st[ids.last() as int] != CellState::Blocked {
            front.push(ids.last())
        } else {
            front
        }
    }
}

/// `base` followed by the cells of `ids` that are not blocked and not listed yet, in order.
pub open spec fn gather(base: Seq<usize>, ids: Seq<usize>, st: Seq<CellState>) -> Seq<usize>
    decreases ids.len(),
{
    if ids.len() == 0 {
        base
    } else {
        let front = gather(base, ids.drop_last(), st);
        if st[ids.last() as int] != CellState::Blocked && !front.contains(ids.last()) {
            front.push(ids.last())
        } else {
            front
        }
    }
}

/// The candidates for lighting `x`: the free cells of its row segment,
/// then those of its column segment that are not among them.
pub open spec fn candidates(l: Layout, s: Snapshot, x: int) -> Seq<usize> {
    gather(
        free_of(l.row_cells[l.row_seg_id[x] as int], s.cell_state),
        l.col_cells[l.col_seg_id[x] as int],
        s.cell_state,
    )
}

/// Every listed cell is a free cell of `ids`.
pub proof fn lemma_free_of_members(ids: Seq<usize>, st: Seq<CellState>)
    ensures
        forall|i: int|
            0 <= i < free_of(ids, st).len() ==> member(ids, (#[trigger] free_of(ids, st)[i]) as int)
                && st[free_of(ids, st)[i] as int] != CellState::Blocked,
    decreases ids.len(),
{
    if ids.len() > 0 {
        let front = ids.drop_last();
        lemma_free_of_members(front, st);
        assert forall|i: int| 0 <= i < free_of(ids, st).len() implies member(
            ids,
            (#[trigger] free_of(ids, st)[i]) as int,
        ) && st[free_of(ids, st)[i] as int] != CellState::Blocked by {
            if i < free_of(front, st).len() {
                let y = free_of(front, st)[i];
                assert(member(front, y as int));
                let j = choose|j: int| 0 <= j < front.len() && #[trigger] front[j] == y;
                assert(ids[j] == y);
            } else {
                assert(ids[ids.len() - 1] == ids.last());
            }
        }
    }
}

/// Every gathered cell is listed in `base` or is a free cell of `ids`.
pub proof fn lemma_gather_members(base: Seq<usize>, ids: Seq<usize>, st: Seq<CellState>)
    ensures
        forall|i: int|
            0 <= i < gather(base, ids, st).len() ==> base.contains(
                #[trigger] gather(base, ids, st)[i],
            ) || (member(ids, gather(base, ids, st)[i] as int) && st[gather(base, ids, st)[i] as int]
                != CellState::Blocked),
    decreases ids.len(),
{
    if ids.len() > 0 {
        let front = ids.drop_last();
        lemma_gather_members(base, front, st);
        assert forall|i: int| 0 <= i < gather(base, ids, st).len() implies base.contains(
            #[trigger] gather(base, ids, st)[i],
        ) || (member(ids, gather(base, ids, st)[i] as int) && st[gather(base, ids, st)[i] as int]
            != CellState::Blocked) by {
            if i < gather(base, front, st).len() {
                let y = gather(base, front, st)[i];
                if !base.contains(y) {
                    assert(member(front, y as int));
                    let j = choose|j: int| 0 <= j < front.len() && #[trigger] front[j] == y;
                    assert(ids[j] == y);
                }
            } else {
                assert(ids[ids.len() - 1] == ids.last());
            }
        }
    } else {
        assert forall|i: int| 0 <= i < gather(base, ids, st).len() implies base.contains(
            #[trigger] gather(base, ids, st)[i],
        ) by {
            assert(base[i] == gather(base, ids, st)[i]);
        }
    }
}

/// In a settled state, a free cell in a segment without a light is unknown.
pub proof fn lemma_candidate_unknown(l: Layout, s: Snapshot, x: int, c: int)
    requires
        sound(l, s),
        tidy(l, s),
        0 <= x < l.n,
        0 <= c < l.n,
        s.row_light[l.row_seg_id[x] as int] is None,
        s.col_light[l.col_seg_id[x] as int] is None,
        same_segment(l, c, x),
        s.cell_state[c] != CellState::Blocked,
    ensures
        s.cell_state[c] == CellState::Unknown,
{
    if s.cell_state[c] == CellState::Light {
        assert(s.row_light[l.row_seg_id[c] as int] == Some(c as usize));
        assert(s.col_light[l.col_seg_id[c] as int] == Some(c as usize));
    }
}

/// Every candidate for lighting `x` is a free cell that shares a segment with `x`.
pub proof fn lemma_candidates_shape(l: Layout, s: Snapshot, x: int)
    requires
        sound(l, s),
        0 <= x < l.n,
    ensures
        forall|i: int|
            0 <= i < candidates(l, s, x).len() ==> {
                &&& (#[trigger] candidates(l, s, x)[i]) < l.n
                &&& same_segment(l, candidates(l, s, x)[i] as int, x)
                &&& s.cell_state[candidates(l, s, x)[i] as int] != CellState::Blocked
            },
{
    let row = l.row_cells[l.row_seg_id[x] as int];
    let col = l.col_cells[l.col_seg_id[x] as int];
    let base = free_of(row, s.cell_state);
    lemma_free_of_members(row, s.cell_state);
    lemma_gather_members(base, col, s.cell_state);
    assert forall|i: int| 0 <= i < candidates(l, s, x).len() implies {
        &&& (#[trigger] candidates(l, s, x)[i]) < l.n
        &&& same_segment(l, candidates(l, s, x)[i] as int, x)
        &&& s.cell_state[candidates(l, s, x)[i] as int] != CellState::Blocked
    } by {
        let y = candidates(l, s, x)[i];
        if base.contains(y) {
            let j = choose|j: int| 0 <= j < base.len() && base[j] == y;
            assert(member(row, base[j] as int));
            let p = choose|p: int| 0 <= p < row.len() && #[trigger] row[p] == y;
            assert(row[p] < l.n);
            assert(member(l.row_cells[l.row_seg_id[x] as int], y as int) <==> l.row_seg_id[y as int]
                == l.row_seg_id[x]);
        } else {
            assert(member(col, y as int));
            let p = choose|p: int| 0 <= p < col.len() && #[trigger] col[p] == y;
            assert(col[p] < l.n);
            assert(member(l.col_cells[l.col_seg_id[x] as int], y as int) <==> l.col_seg_id[y as int]
                == l.col_seg_id[x]);
        }
    }
}

impl Core {
    /// The one cell of row segment `rseg` and column segment `cseg` that is
    /// not blocked, if there is exactly one such cell.
    pub fn find_single_candidate(&self, rseg: usize, cseg: usize) -> (res: Option<usize>)
        requires
            self.wf(),
            rseg < self.layout().row_cells.len(),
            cseg < self.layout().col_cells.len(),
        ensures
            match res {
                Some(x) => is_candidate(self.layout(), self.snapshot(), rseg as int, cseg as int, x as int)
                    && forall|y: int|
                    is_candidate(self.layout(), self.snapshot(), rseg as int, cseg as int, y) ==> y
                        == x,
                None => (forall|y: int|
                    !is_candidate(self.layout(), self.snapshot(), rseg as int, cseg as int, y))
                    || exists|y: int, z: int|
                    y != z && is_candidate(
                        self.layout(),
                        self.snapshot(),
                        rseg as int,
                        cseg as int,
                        y,
                    ) && is_candidate(self.layout(), self.snapshot(), rseg as int, cseg as int, z),
            },
    {
        let ghost l = self.layout();
        let ghost s = self.snapshot();
        let ghost row = l.row_cells[rseg as int];
        let ghost col = l.col_cells[cseg as int];
        let mut only: Option<usize> = None;
        let rows = self.row_segs[rseg].cells.len();
        let mut i: usize = 0;
        while i < rows
            invariant
                self.wf(),
                l == self.layout(),
                s == self.snapshot(),
                rseg < l.row_cells.len(),
                cseg < l.col_cells.len(),
                row == l.row_cells[rseg as int],
                rows == row.len(),
                0 <= i <= rows,
                only matches Some(x) ==> is_candidate(l, s, rseg as int, cseg as int, x as int),
                forall|p: int|
                    0 <= p < i && s.cell_state[(#[trigger] row[p]) as int] != CellState::Blocked
                        ==> only == Some(row[p]),
            decreases rows - i,
        {
            let cell = self.row_segs[rseg].cells[i];
            assert(cell == row[i as int]);
            assert(cell < l.n);
            assert(member(row, cell as int));
            assert(member(l.row_cells[rseg as int], cell as int) <==> l.row_seg_id[cell as int]
                == rseg);
            if self.cell_state[cell] != CellState::Blocked {
                if let Some(prev) = only {
                    if prev != cell {
                        assert(is_candidate(l, s, rseg as int, cseg as int, prev as int));
                        assert(is_candidate(l, s, rseg as int, cseg as int, cell as int));
                        return None;
                    }
                } else {
                    only = Some(cell);
                }
            }
            i = i + 1;
        }
        let cols = self.col_segs[cseg].cells.len();
        let mut j: usize = 0;
        while j < cols
            invariant
                self.wf(),
                l == self.layout(),
                s == self.snapshot(),
                rseg < l.row_cells.len(),
                cseg < l.col_cells.len(),
                row == l.row_cells[rseg as int],
                col == l.col_cells[cseg as int],
                cols == col.len(),
                0 <= j <= cols,
                only matches Some(x) ==> is_candidate(l, s, rseg as int, cseg as int, x as int),
                forall|p: int|
                    0 <= p < row.len() && s.cell_state[(#[trigger] row[p]) as int]
                        != CellState::Blocked ==> only == Some(row[p]),
                forall|p: int|
                    0 <= p < j && s.cell_state[(#[trigger] col[p]) as int] != CellState::Blocked
                        ==> only == Some(col[p]),
            decreases cols - j,
        {
            let cell = self.col_segs[cseg].cells[j];
            assert(cell == col[j as int]);
            assert(cell < l.n);
            assert(member(col, cell as int));
            assert(member(l.col_cells[cseg as int], cell as int) <==> l.col_seg_id[cell as int]
                == cseg);
            if self.cell_state[cell] != CellState::Blocked {
                if let Some(prev) = only {
                    if prev != cell {
                        assert(is_candidate(l, s, rseg as int, cseg as int, prev as int));
                        assert(is_candidate(l, s, rseg as int, cseg as int, cell as int));
                        return None;
                    }
                } else {
                    only = Some(cell);
                }
            }
            j = j + 1;
        }
        proof {
            assert forall|y: int| is_candidate(l, s, rseg as int, cseg as int, y) implies only
                == Some(y as usize) by {
                if l.row_seg_id[y] == rseg {
                    assert(member(l.row_cells[rseg as int], y) <==> l.row_seg_id[y] == rseg);
                    let p = choose|p: int| 0 <= p < row.len() && #[trigger] row[p] == y;
                    assert(s.cell_state[row[p] as int] != CellState::Blocked);
                } else {
                    assert(member(l.col_cells[cseg as int], y) <==> l.col_seg_id[y] == cseg);
                    let p = choose|p: int| 0 <= p < col.len() && #[trigger] col[p] == y;
                    assert(s.cell_state[col[p] as int] != CellState::Blocked);
                }
            }
        }
        only
    }

    /// Whether every cell is lit and every wall has its number of lights.
    pub fn is_solved(&self) -> (res: bool)
        requires
            self.wf(),
        ensures
            res == solved(self.layout(), self.snapshot()),
    {
        let mut x: usize = 0;
        while x < self.lit_count.len()
            invariant
                self.wf(),
                0 <= x <= self.lit_count@.len(),
                forall|y: int| 0 <= y < x ==> (#[trigger] self.snapshot().lit_count[y]) > 0,
            decreases self.lit_count@.len() - x,
        {
            if self.lit_count[x] == 0 {
                return false;
            }
            x = x + 1;
        }
        let mut k: usize = 0;
        while k < self.num_cells.len()
            invariant
                self.wf(),
                0 <= k <= self.num_cells@.len(),
                forall|y: int|
                    0 <= y < self.layout().n ==> (#[trigger] self.snapshot().lit_count[y]) > 0,
                forall|j: int|
                    0 <= j < k ==> (#[trigger] self.snapshot().num_on[j])
                        == self.layout().num_value[j],
            decreases self.num_cells@.len() - k,
        {
            if self.num_cells[k].on != self.num_cells[k].value {
                assert(self.snapshot().num_on[k as int] != self.layout().num_value[k as int]);
                return false;
            }
            k = k + 1;
        }
        true
    }

    /// The number of cells that could still light `cell`, for a cell whose
    /// segments are both without a light.
    pub(crate) fn count_candidates(&self, cell: usize) -> (res: u128)
        requires
            self.wf(),
            cell < self.n_empty,
        ensures
            res == cand_count(self.layout(), self.snapshot(), cell as int),
    {
        let ghost l = self.layout();
        let ghost s = self.snapshot();
        let rseg = self.row_seg_id[cell];
        let cseg = self.col_seg_id[cell];
        let row_free = self.row_segs[rseg].free_cnt;
        let col_free = self.col_segs[cseg].free_cnt;
        let self_free: u128 = if self.cell_state[cell] != CellState::Blocked {
            1
        } else {
            0
        };
        proof {
            assert(row_free == s.row_free[rseg as int]);
            assert(col_free == s.col_free[cseg as int]);
            if s.cell_state[cell as int] != CellState::Blocked {
                assert(member(l.row_cells[rseg as int], cell as int) <==> l.row_seg_id[cell as int]
                    == rseg);
                lemma_count_in_room(
                    l.row_cells[rseg as int],
                    s.cell_state,
                    cell as int,
                    CellState::Blocked,
                );
                assert(s.row_free[rseg as int] + count_in(
                    l.row_cells[rseg as int],
                    s.cell_state,
                    CellState::Blocked,
                ) == l.row_cells[rseg as int].len());
            }
        }
        row_free as u128 + col_free as u128 - self_free
    }

    /// The cell to branch on and the lights to try for it: the first dark,
    /// uncovered cell with the fewest candidates among those that have at
    /// least two, and its candidates. `None` where no cell has two.
    pub fn choose_branch_cell(&self) -> (res: Option<Vec<usize>>)
        requires
            self.wf(),
        ensures
            match res {
                None => forall|x: int| !branchable(self.layout(), self.snapshot(), x),
                Some(list) => exists|x: int|
                    {
                        &&& #[trigger] branchable(self.layout(), self.snapshot(), x)
                        &&& forall|y: int|
                            branchable(self.layout(), self.snapshot(), y) ==> cand_count(
                                self.layout(),
                                self.snapshot(),
                                x,
                            ) <= cand_count(self.layout(), self.snapshot(), y)
                        &&& forall|y: int|
                            0 <= y < x && branchable(self.layout(), self.snapshot(), y)
                                ==> cand_count(self.layout(), self.snapshot(), x) < cand_count(
                                self.layout(),
                                self.snapshot(),
                                y,
                            )
                        &&& list@ == candidates(self.layout(), self.snapshot(), x)
                    },
            },
    {
        let ghost l = self.layout();
        let ghost s = self.snapshot();
        let mut best: Option<(u128, Vec<usize>)> = None;
        let ghost mut best_cell: int = 0;
        let mut cell: usize = 0;
        while cell < self.n_empty
            invariant
                self.wf(),
                l == self.layout(),
                s == self.snapshot(),
                0 <= cell <= self.n_empty,
                best is None ==> forall|x: int| 0 <= x < cell ==> !branchable(l, s, x),
                best matches Some((cnt, list)) ==> {
                    &&& 0 <= best_cell < cell
                    &&& branchable(l, s, best_cell)
                    &&& cnt == cand_count(l, s, best_cell)
                    &&& list@ == candidates(l, s, best_cell)
                    &&& forall|y: int|
                        0 <= y < cell && branchable(l, s, y) ==> cand_count(l, s, best_cell)
                            <= cand_count(l, s, y)
                    &&& forall|y: int|
                        0 <= y < best_cell && branchable(l, s, y) ==> cand_count(l, s, best_cell)
                            < cand_count(l, s, y)
                },
            decreases self.n_empty - cell,
        {
            let rseg = self.row_seg_id[cell];
            let cseg = self.col_seg_id[cell];
            let dark = self.lit_count[cell] == 0;
            let open = self.row_segs[rseg].light.is_none() && self.col_segs[cseg].light.is_none();
            assert((dark && open) == uncovered(l, s, cell as int));
            if dark && open {
                let cand = self.count_candidates(cell);
                if cand > 1 {
                    let better = match &best {
                        None => true,
                        Some((cnt, _)) => cand < *cnt,
                    };
                    if better {
                        let list = self.list_candidates(cell);
                        best = Some((cand, list));
                        proof {
                            best_cell = cell as int;
                        }
                    }
                }
            }
            cell = cell + 1;
        }
        match best {
            None => None,
            Some((_, list)) => {
                assert(branchable(l, s, best_cell));
                Some(list)
            },
        }
    }

    /// The candidates for lighting `cell`.
    pub(crate) fn list_candidates(&self, cell: usize) -> (list: Vec<usize>)
        requires
            self.wf(),
            cell < self.n_empty,
        ensures
            list@ == candidates(self.layout(), self.snapshot(), cell as int),
    {
        let ghost l = self.layout();
        let ghost s = self.snapshot();
        let rseg = self.row_seg_id[cell];
        let cseg = self.col_seg_id[cell];
        let ghost row = l.row_cells[rseg as int];
        let ghost col = l.col_cells[cseg as int];
        let mut list: Vec<usize> = Vec::new();
        let rows = self.row_segs[rseg].cells.len();
        let mut i: usize = 0;
        while i < rows
            invariant
                self.wf(),
                l == self.layout(),
                s == self.snapshot(),
                rseg < l.row_cells.len(),
                row == l.row_cells[rseg as int],
                rows == row.len(),
                0 <= i <= rows,
                list@ == free_of(row.take(i as int), s.cell_state),
            decreases rows - i,
        {
            let x = self.row_segs[rseg].cells[i];
            assert(x == row[i as int]);
            assert(x < l.n);
            proof {
                assert(row.take(i + 1).drop_last() =~= row.take(i as int));
                assert(row.take(i + 1).last() == x);
            }
            if self.cell_state[x] != CellState::Blocked {
                list.push(x);
            }
            i = i + 1;
        }
        proof {
            assert(row.take(rows as int) =~= row);
        }
        let ghost base = list@;
        let cols = self.col_segs[cseg].cells.len();
        let mut j: usize = 0;
        while j < cols
            invariant
                self.wf(),
                l == self.layout(),
                s == self.snapshot(),
                cseg < l.col_cells.len(),
                col == l.col_cells[cseg as int],
                cols == col.len(),
                0 <= j <= cols,
                list@ == gather(base, col.take(j as int), s.cell_state),
            decreases cols - j,
        {
            let x = self.col_segs[cseg].cells[j];
            assert(x == col[j as int]);
            assert(x < l.n);
            proof {
                assert(col.take(j + 1).drop_last() =~= col.take(j as int));
                assert(col.take(j + 1).last() == x);
            }
            if self.cell_state[x] != CellState::Blocked && !Self::holds(&list, x) {
                list.push(x);
            }
            j = j + 1;
        }
        proof {
            assert(col.take(cols as int) =~= col);
        }
        list
    }

    /// Whether `x` is in the list.
    pub(crate) fn holds(list: &Vec<usize>, x: usize) -> (res: bool)
        ensures
            res == list@.contains(x),
    {
        let mut i: usize = 0;
        while i < list.len()
            invariant
                0 <= i <= list@.len(),
                forall|j: int| 0 <= j < i ==> list@[j] != x,
            decreases list@.len() - i,
        {
            if list[i] == x {
                return true;
            }
            i = i + 1;
        }
        false
    }
}

} // verus!
