//! From the state back to the board: the placement that a state stands
//! for, and why a solved state stands for a solution.

use vstd::prelude::*;
use crate::field::{fits, Board, Field, Solution};
use crate::solver::{
    lemma_lights_upto_all, light_at, lights_upto, lit, miscounted, open_run, sees, sees_any,
    solves,
};
use crate::utility::{direction, moved};
use crate::solver::fast::{
    charted, count_in, has_run, id_at, is_run, lemma_count_in_concat, lemma_count_in_positive,
    member, neighbor_ids_upto, next_along, opt_id, place, same_segment, solved, sound, tidy,
    wall_is, CellState, Core, Layout, Snapshot,
};

verus! {

/// The placement with a light on every cell in state `Light`.
pub open spec fn lights_in(l: Layout, st: Seq<CellState>, board: Board) -> Seq<Seq<bool>> {
    Seq::new(
        board.h,
        |r: int|
            Seq::new(
                board.w,
                |c: int|
                    board.open_at(r, c) && st[id_at(l.empty_pos, r, c)] == CellState::Light,
            ),
    )
}

/// The placement that the state stands for: a light on every cell in state `Light`.
pub open spec fn lights_of(l: Layout, s: Snapshot, board: Board) -> Seq<Seq<bool>> {
    lights_in(l, s.cell_state, board)
}

/// The lights counted beside a wall are the lights of the placement beside it.
pub proof fn lemma_neighbor_count(
    l: Layout,
    st: Seq<CellState>,
    board: Board,
    r: int,
    c: int,
    i: int,
)
    requires
        board.wf(),
        charted(l, board),
        0 <= i <= 4,
    ensures
        count_in(neighbor_ids_upto(l.empty_pos, board, r, c, i), st, CellState::Light)
            == lights_upto(board, lights_in(l, st, board), r, c, i),
    decreases i,
{
    if i > 0 {
        lemma_neighbor_count(l, st, board, r, c, i - 1);
        let m = moved(r, c, direction(i - 1), 1);
        let front = neighbor_ids_upto(l.empty_pos, board, r, c, i - 1);
        let one = opt_id(l.empty_pos, board, m.0, m.1);
        lemma_count_in_concat(front, one, st, CellState::Light);
        let lights = lights_in(l, st, board);
        if board.open_at(m.0, m.1) {
            let x = id_at(l.empty_pos, m.0, m.1);
            assert(one =~= seq![x as usize]);
            assert(one.drop_last() =~= Seq::<usize>::empty());
            assert(count_in(one, st, CellState::Light) == (if st[x] == CellState::Light {
                1nat
            } else {
                0nat
            })) by {
                assert(one.last() == x as usize);
                assert(count_in(one.drop_last(), st, CellState::Light) == 0);
            }
            assert(lights[m.0][m.1] == (st[x] == CellState::Light));
        } else {
            assert(!light_at(board, lights, m.0, m.1)) by {
                if board.inside(m.0, m.1) {
                    assert(!lights[m.0][m.1]);
                }
            }
        }
    }
}

/// The cells from `(r, c)` to `k` steps off in one direction, all empty, lie in one segment.
pub proof fn lemma_linked(l: Layout, board: Board, r: int, c: int, i: int, k: int)
    requires
        board.wf(),
        charted(l, board),
        0 <= i < 4,
        k >= 0,
        forall|j: int|
            0 <= j <= k ==> board.open_at(
                (#[trigger] moved(r, c, direction(i), j)).0,
                moved(r, c, direction(i), j).1,
            ),
    ensures
        ({
            let x = id_at(l.empty_pos, r, c);
            let m = moved(r, c, direction(i), k);
            let y = id_at(l.empty_pos, m.0, m.1);
            &&& 0 <= x < l.n
            &&& 0 <= y < l.n
            &&& k > 0 ==> x != y
            &&& if i == 0 || i == 2 {
                l.row_seg_id[x] == l.row_seg_id[y]
            } else {
                l.col_seg_id[x] == l.col_seg_id[y]
            }
        }),
    decreases k,
{
    let pos = l.empty_pos;
    let x = id_at(pos, r, c);
    assert(moved(r, c, direction(i), 0) == (r, c));
    assert(board.open_at(moved(r, c, direction(i), 0).0, moved(r, c, direction(i), 0).1));
    if k > 0 {
        assert forall|j: int| 0 <= j <= k - 1 implies board.open_at(
            (#[trigger] moved(r, c, direction(i), j)).0,
            moved(r, c, direction(i), j).1,
        ) by {}
        lemma_linked(l, board, r, c, i, k - 1);
        let m0 = moved(r, c, direction(i), k - 1);
        let m1 = moved(r, c, direction(i), k);
        assert(board.open_at(m0.0, m0.1));
        assert(board.open_at(m1.0, m1.1));
        let y0 = id_at(pos, m0.0, m0.1);
        let y1 = id_at(pos, m1.0, m1.1);
        if i == 0 {
            assert(next_along(pos, true, y0, y1));
        } else if i == 2 {
            assert(next_along(pos, true, y1, y0));
        } else if i == 3 {
            assert(next_along(pos, false, y0, y1));
        } else {
            assert(next_along(pos, false, y1, y0));
        }
        assert(pos[x] != pos[y1]);
    }
}

/// In a settled state that is solved, no light of the placement shines on another.
pub proof fn lemma_no_clash(l: Layout, s: Snapshot, board: Board, r: int, c: int)
    requires
        board.wf(),
        sound(l, s),
        tidy(l, s),
        charted(l, board),
        board.inside(r, c),
        lights_of(l, s, board)[r][c],
    ensures
        !sees_any(board, lights_of(l, s, board), r, c),
{
    let lights = lights_of(l, s, board);
    if sees_any(board, lights, r, c) {
        let (i, k) = choose|i: int, k: int|
            0 <= i < 4 && sees(board, lights, r, c, direction(i), k);
        let d = direction(i);
        let m = moved(r, c, d, k);
        assert(moved(r, c, d, 0) == (r, c));
        assert(lights[m.0][m.1]);
        assert forall|j: int| 0 <= j <= k implies board.open_at(
            (#[trigger] moved(r, c, direction(i), j)).0,
            moved(r, c, direction(i), j).1,
        ) by {
            if j == 0 {
            } else if j == k {
            } else {
                assert(open_run(board, r, c, d, k - 1));
            }
        }
        lemma_linked(l, board, r, c, i, k);
        let x = id_at(l.empty_pos, r, c);
        let y = id_at(l.empty_pos, m.0, m.1);
        assert(s.cell_state[x] == CellState::Light);
        assert(s.cell_state[y] == CellState::Light);
        assert(s.cell_state[y] == CellState::Blocked);
    }
}

/// Looking from cell `x` in the `i`-th direction, cell `y` lies `k` steps
/// away with nothing but empty cells in between.
pub open spec fn in_sight(l: Layout, board: Board, x: int, y: int, i: int, k: int) -> bool {
    &&& 0 <= i < 4
    &&& k >= 1
    &&& open_run(
        board,
        l.empty_pos[x].0 as int,
        l.empty_pos[x].1 as int,
        direction(i),
        k - 1,
    )
    &&& moved(l.empty_pos[x].0 as int, l.empty_pos[x].1 as int, direction(i), k) == (
        l.empty_pos[y].0 as int,
        l.empty_pos[y].1 as int,
    )
}

/// Two cells of one segment are in sight of each other.
pub proof fn lemma_segment_sight(l: Layout, board: Board, x: int, y: int)
    requires
        board.wf(),
        charted(l, board),
        0 <= x < l.n,
        0 <= y < l.n,
        x != y,
        same_segment(l, y, x),
    ensures
        exists|i: int, k: int| in_sight(l, board, x, y, i, k),
{
    let pos = l.empty_pos;
    let r = pos[x].0 as int;
    let c = pos[x].1 as int;
    let by_row = l.row_seg_id[y] == l.row_seg_id[x];
    let g = if by_row {
        l.row_seg_id[x] as int
    } else {
        l.col_seg_id[x] as int
    };
    let cells = if by_row {
        l.row_cells[g]
    } else {
        l.col_cells[g]
    };
    if by_row {
        assert(l.row_seg_id[x] < l.row_cells.len());
        assert(member(l.row_cells[g], x) <==> l.row_seg_id[x] == g);
        assert(member(l.row_cells[g], y) <==> l.row_seg_id[y] == g);
    } else {
        assert(l.col_seg_id[x] < l.col_cells.len());
        assert(member(l.col_cells[g], x) <==> l.col_seg_id[x] == g);
        assert(member(l.col_cells[g], y) <==> l.col_seg_id[y] == g);
    }
    assert(has_run(pos, cells, by_row));
    let (a, b0) = choose|a: int, b0: int| is_run(pos, cells, by_row, a, b0);
    let jx = choose|jx: int| 0 <= jx < cells.len() && #[trigger] cells[jx] == x;
    let jy = choose|jy: int| 0 <= jy < cells.len() && #[trigger] cells[jy] == y;
    assert(place(by_row, a, b0 + jx) == (r, c));
    let k = if jy > jx {
        jy - jx
    } else {
        jx - jy
    };
    let i: int = if by_row {
        if jy > jx {
            0
        } else {
            2
        }
    } else {
        if jy > jx {
            3
        } else {
            1
        }
    };
    let d = direction(i);
    assert forall|q: int| 0 <= q <= k implies {
        let t = if jy > jx {
            jx + q
        } else {
            jx - q
        };
        &&& #[trigger] moved(r, c, d, q) == place(by_row, a, b0 + t)
        &&& board.open_at(moved(r, c, d, q).0, moved(r, c, d, q).1)
    } by {
        let t = if jy > jx {
            jx + q
        } else {
            jx - q
        };
        assert(cells[t] < pos.len());
        let z = cells[t] as int;
        assert((pos[z].0 as int, pos[z].1 as int) == place(by_row, a, b0 + t));
        assert(board.open_at(pos[z].0 as int, pos[z].1 as int));
    }
    assert(open_run(board, r, c, d, k - 1)) by {
        assert forall|q: int| 1 <= q <= k - 1 implies board.open_at(
            (#[trigger] moved(r, c, d, q)).0,
            moved(r, c, d, q).1,
        ) by {
            assert(0 <= q <= k);
        }
    }
    assert(0 <= k <= k);
    assert(moved(r, c, d, k) == place(by_row, a, b0 + jy));
    assert((pos[y].0 as int, pos[y].1 as int) == place(by_row, a, b0 + jy));
    assert(in_sight(l, board, x, y, i, k));
}

/// In a solved state every empty cell of the board is lit by the placement.
pub proof fn lemma_all_lit(l: Layout, s: Snapshot, board: Board, r: int, c: int)
    requires
        board.wf(),
        sound(l, s),
        solved(l, s),
        charted(l, board),
        board.open_at(r, c),
    ensures
        lit(board, lights_of(l, s, board), r, c),
{
    let lights = lights_of(l, s, board);
    let pos = l.empty_pos;
    let x = id_at(pos, r, c);
    assert(s.lit_count[x] > 0);
    lemma_count_in_positive(l.lit_list[x], s.cell_state, CellState::Light);
    let j = choose|j: int|
        0 <= j < l.lit_list[x].len() && s.cell_state[#[trigger] l.lit_list[x][j] as int]
            == CellState::Light;
    let y = l.lit_list[x][j] as int;
    assert(member(l.lit_list[x], y));
    assert(member(l.lit_list[x], y) <==> (l.row_seg_id[y] == l.row_seg_id[x] || l.col_seg_id[y]
        == l.col_seg_id[x]));
    if y == x {
    } else {
        lemma_segment_sight(l, board, x, y);
        let (i, k) = choose|i: int, k: int| in_sight(l, board, x, y, i, k);
        let m = moved(r, c, direction(i), k);
        assert(board.open_at(pos[y].0 as int, pos[y].1 as int));
        let w = id_at(pos, m.0, m.1);
        assert(pos[w] == pos[y]);
        assert(lights[m.0][m.1]);
        assert(sees(board, lights, r, c, direction(i), k));
        assert(sees_any(board, lights, r, c));
    }
}

/// A settled, solved state stands for a placement that the verifier accepts.
pub proof fn lemma_solved_solves(l: Layout, s: Snapshot, board: Board)
    requires
        board.wf(),
        sound(l, s),
        tidy(l, s),
        solved(l, s),
        charted(l, board),
    ensures
        solves(board, lights_of(l, s, board)),
{
    let lights = lights_of(l, s, board);
    assert(fits(lights, board));
    assert forall|r: int, c: int| board.inside(r, c) implies !miscounted(board, lights, r, c) by {
        assert(board.cells[r].len() == board.w);
        if board.cells[r][c].target() is Some {
            let k = choose|k: int| #[trigger]
                wall_is(l.empty_pos, board, l.num_value, l.num_adj, k, r, c);
            lemma_neighbor_count(l, s.cell_state, board, r, c, 4);
            assert(s.num_on[k] == l.num_value[k]);
            assert(s.num_on[k] == count_in(l.num_adj[k], s.cell_state, CellState::Light));
            lemma_lights_upto_all(board, lights, r, c);
        }
    }
    assert forall|r: int, c: int| board.inside(r, c) && lights[r][c] implies !sees_any(
        board,
        lights,
        r,
        c,
    ) by {
        lemma_no_clash(l, s, board, r, c);
    }
    assert forall|r: int, c: int| board.open_at(r, c) implies lit(board, lights, r, c) by {
        lemma_all_lit(l, s, board, r, c);
    }
}

impl Core {
    /// The placement that the state stands for.
    pub fn to_solution(&self, field: &Field) -> (sol: Solution)
        requires
            self.wf(),
            field.wf(),
            self.mapped(),
            self.layout().board == field@,
        ensures
            sol@ == lights_of(self.layout(), self.snapshot(), field@),
            fits(sol@, field@),
    {
        let ghost l = self.layout();
        let ghost s = self.snapshot();
        let ghost board = field@;
        let mut grid = crate::solver::filled_grid(field.h, field.w, false);
        let mut id: usize = 0;
        while id < self.n_empty
            invariant
                self.wf(),
                field.wf(),
                l == self.layout(),
                s == self.snapshot(),
                board == field@,
                charted(l, board),
                0 <= id <= self.n_empty,
                grid@.len() == board.h,
                forall|r: int| 0 <= r < board.h ==> (#[trigger] grid@[r])@.len() == board.w,
                forall|r: int, c: int|
                    board.inside(r, c) ==> (#[trigger] grid@[r]@[c]) == (board.open_at(r, c)
                        && id_at(l.empty_pos, r, c) < id && s.cell_state[id_at(l.empty_pos, r, c)]
                        == CellState::Light),
            decreases self.n_empty - id,
        {
            let (r, c) = self.empty_pos[id];
            assert(board.open_at(l.empty_pos[id as int].0 as int, l.empty_pos[id as int].1 as int));
            assert(board.open_at(r as int, c as int));
            assert(id_at(l.empty_pos, r as int, c as int) == id) by {
                let y = id_at(l.empty_pos, r as int, c as int);
                assert(l.empty_pos[y] == l.empty_pos[id as int]);
            }
            let ghost before = grid@;
            if self.cell_state[id] == CellState::Light {
                assert(grid@[r as int]@.len() == board.w);
                grid[r][c] = true;
            }
            proof {
                assert forall|r2: int, c2: int| board.inside(r2, c2) implies (
                #[trigger] grid@[r2]@[c2]) == (board.open_at(r2, c2) && id_at(l.empty_pos, r2, c2)
                    < id + 1 && s.cell_state[id_at(l.empty_pos, r2, c2)] == CellState::Light) by {
                    if r2 == r && c2 == c {
                    } else {
                        assert(grid@[r2]@[c2] == before[r2]@[c2]);
                        if board.open_at(r2, c2) {
                            assert(id_at(l.empty_pos, r2, c2) != id);
                        }
                    }
                }
            }
            id = id + 1;
        }
        let sol = Solution { field: grid };
        proof {
            assert forall|r: int| 0 <= r < board.h implies #[trigger] sol@[r] == lights_of(
                l,
                s,
                board,
            )[r] by {
                assert(sol@[r] =~= lights_of(l, s, board)[r]);
            }
            assert(sol@ =~= lights_of(l, s, board));
        }
        sol
    }
}

} // verus!
