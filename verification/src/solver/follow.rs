//! Solutions that a state of the fast solver can still reach: what it
//! means for a solution to agree with the state, and why every step of the
//! search keeps the solutions it should keep.

use vstd::prelude::*;
use crate::field::Board;
use crate::solver::fast::{
    below, cand_count, candidates, charted, count_in, free_of, gather, id_at, in_sight,
    is_candidate, is_wall, lemma_count_in_bound, lemma_count_in_positive, lemma_count_in_room,
    lemma_linked, lemma_neighbor_count, lemma_segment_sight, lights_in, lit_state,
    member, refines, same_segment, solved, sound, tidy, uncovered, wall_is, CellState, Layout, Snapshot,
};
use crate::solver::{
    lemma_lights_upto_all, lit, miscounted, open_run, sees, sees_any, solves,
};
use crate::utility::{direction, moved};

verus! {

/// The placement has a light on cell `x`.
pub open spec fn wants(l: Layout, lights: Seq<Seq<bool>>, x: int) -> bool {
    lights[l.empty_pos[x].0 as int][l.empty_pos[x].1 as int]
}

/// The placement as cell states: a light or none on every cell.
pub open spec fn as_state(l: Layout, lights: Seq<Seq<bool>>) -> Seq<CellState> {
    Seq::new(
        l.n,
        |x: int|
            if wants(l, lights, x) {
                CellState::Light
            } else {
                CellState::Blocked
            },
    )
}

/// The placement has a light wherever the state has one and none where the
/// state rules one out.
pub open spec fn compat(l: Layout, s: Snapshot, lights: Seq<Seq<bool>>) -> bool {
    forall|x: int|
        0 <= x < l.n ==> ((#[trigger] s.cell_state[x]) == CellState::Light ==> wants(l, lights, x))
            && (s.cell_state[x] == CellState::Blocked ==> !wants(l, lights, x))
}

/// The placement is a solution that the state can still reach.
pub open spec fn follows(l: Layout, s: Snapshot, lights: Seq<Seq<bool>>) -> bool {
    solves(l.board, lights) && compat(l, s, lights)
}

/// A solution has its lights on empty cells.
pub proof fn lemma_solution_on_open(board: Board, lights: Seq<Seq<bool>>, r: int, c: int)
    requires
        solves(board, lights),
        board.inside(r, c),
        lights[r][c],
    ensures
        board.open_at(r, c),
{
    if !board.open_at(r, c) {
        assert(miscounted(board, lights, r, c));
    }
}

/// A solution is the placement of its own cell states.
pub proof fn lemma_as_state_round(l: Layout, board: Board, lights: Seq<Seq<bool>>)
    requires
        board.wf(),
        charted(l, board),
        solves(board, lights),
    ensures
        lights_in(l, as_state(l, lights), board) == lights,
{
    let back = lights_in(l, as_state(l, lights), board);
    assert forall|r: int| 0 <= r < board.h implies #[trigger] back[r] == lights[r] by {
        assert(lights[r].len() == board.w);
        assert forall|c: int| 0 <= c < board.w implies back[r][c] == lights[r][c] by {
            if board.open_at(r, c) {
                let x = id_at(l.empty_pos, r, c);
                assert(l.empty_pos[x].0 == r && l.empty_pos[x].1 == c);
            } else {
                if lights[r][c] {
                    lemma_solution_on_open(board, lights, r, c);
                }
            }
        }
        assert(back[r] =~= lights[r]);
    }
    assert(back =~= lights);
}

/// In a solution every listed wall has its number of lights among the cells beside it.
pub proof fn lemma_wall_wanted(l: Layout, board: Board, lights: Seq<Seq<bool>>, k: int)
    requires
        board.wf(),
        charted(l, board),
        solves(board, lights),
        0 <= k < l.num_adj.len(),
    ensures
        count_in(l.num_adj[k], as_state(l, lights), CellState::Light) == l.num_value[k],
{
    assert(is_wall(l.empty_pos, board, l.num_value, l.num_adj, k));
    let (r, c) = choose|r: int, c: int|
        board.inside(r, c) && #[trigger] wall_is(l.empty_pos, board, l.num_value, l.num_adj, k, r, c);
    lemma_neighbor_count(l, as_state(l, lights), board, r, c, 4);
    lemma_as_state_round(l, board, lights);
    lemma_lights_upto_all(board, lights, r, c);
    assert(!miscounted(board, lights, r, c));
}

/// Where one assignment of states has a light wherever another has one,
/// and none where the other rules one out, its lights in any list are at
/// least the other's and at most the other's lights and unknown cells;
/// and where a bound is met, the cells in between are settled.
pub proof fn lemma_count_between(ids: Seq<usize>, st: Seq<CellState>, full: Seq<CellState>)
    requires
        below(ids, st.len()),
        st.len() == full.len(),
        forall|x: int|
            0 <= x < st.len() ==> ((#[trigger] st[x]) == CellState::Light ==> full[x]
                == CellState::Light) && (st[x] == CellState::Blocked ==> full[x]
                != CellState::Light),
    ensures
        count_in(ids, st, CellState::Light) <= count_in(ids, full, CellState::Light),
        count_in(ids, full, CellState::Light) <= count_in(ids, st, CellState::Light) + count_in(
            ids,
            st,
            CellState::Unknown,
        ),
        count_in(ids, st, CellState::Light) == count_in(ids, full, CellState::Light) ==> forall|
            i: int,
        |
            0 <= i < ids.len() && full[(#[trigger] ids[i]) as int] == CellState::Light ==> st[ids[i] as int]
                == CellState::Light,
        count_in(ids, full, CellState::Light) == count_in(ids, st, CellState::Light) + count_in(
            ids,
            st,
            CellState::Unknown,
        ) ==> forall|i: int|
            0 <= i < ids.len() && st[(#[trigger] ids[i]) as int] == CellState::Unknown ==> full[ids[i] as int]
                == CellState::Light,
    decreases ids.len(),
{
    if ids.len() > 0 {
        let front = ids.drop_last();
        assert(below(front, st.len())) by {
            assert forall|i: int| 0 <= i < front.len() implies (#[trigger] front[i]) < st.len() by {
                assert(front[i] == ids[i]);
            }
        }
        lemma_count_between(front, st, full);
        let last = ids[ids.len() - 1] as int;
        assert(last < st.len());
        assert(st[last] == CellState::Light ==> full[last] == CellState::Light);
        if count_in(ids, st, CellState::Light) == count_in(ids, full, CellState::Light) {
            assert forall|i: int|
                0 <= i < ids.len() && full[(#[trigger] ids[i]) as int]
                    == CellState::Light implies st[ids[i] as int] == CellState::Light by {
                if i < front.len() {
                    assert(front[i] == ids[i]);
                }
            }
        }
        if count_in(ids, full, CellState::Light) == count_in(ids, st, CellState::Light) + count_in(
            ids,
            st,
            CellState::Unknown,
        ) {
            assert forall|i: int|
                0 <= i < ids.len() && st[(#[trigger] ids[i]) as int]
                    == CellState::Unknown implies full[ids[i] as int] == CellState::Light by {
                if i < front.len() {
                    assert(front[i] == ids[i]);
                }
            }
        }
    }
}

/// A solution that agrees with the state is, as cell states, a completion of the state.
pub proof fn lemma_compat_states(l: Layout, s: Snapshot, lights: Seq<Seq<bool>>)
    requires
        compat(l, s, lights),
        s.cell_state.len() == l.n,
    ensures
        forall|x: int|
            0 <= x < l.n ==> ((#[trigger] s.cell_state[x]) == CellState::Light ==> as_state(
                l,
                lights,
            )[x] == CellState::Light) && (s.cell_state[x] == CellState::Blocked ==> as_state(
                l,
                lights,
            )[x] != CellState::Light),
{
}

/// In a solution, some cell in the segments of any empty cell holds a light.
pub proof fn lemma_must_be_lit(l: Layout, board: Board, lights: Seq<Seq<bool>>, x: int)
    requires
        board.wf(),
        charted(l, board),
        solves(board, lights),
        0 <= x < l.n,
    ensures
        exists|y: int| 0 <= y < l.n && same_segment(l, y, x) && #[trigger] wants(l, lights, y),
{
    let pos = l.empty_pos;
    let r = pos[x].0 as int;
    let c = pos[x].1 as int;
    assert(board.open_at(r, c));
    assert(lit(board, lights, r, c));
    assert(id_at(pos, r, c) == x) by {
        let y = id_at(pos, r, c);
        assert(pos[y] == pos[x]);
    }
    if lights[r][c] {
        assert(wants(l, lights, x));
    } else {
        let (i, k) = choose|i: int, k: int|
            0 <= i < 4 && sees(board, lights, r, c, direction(i), k);
        let m = moved(r, c, direction(i), k);
        lemma_solution_on_open(board, lights, m.0, m.1);
        assert(moved(r, c, direction(i), 0) == (r, c));
        assert forall|j: int| 0 <= j <= k implies board.open_at(
            (#[trigger] moved(r, c, direction(i), j)).0,
            moved(r, c, direction(i), j).1,
        ) by {
            if j == 0 {
            } else if j == k {
            } else {
                assert(open_run(board, r, c, direction(i), k - 1));
            }
        }
        lemma_linked(l, board, r, c, i, k);
        let y = id_at(pos, m.0, m.1);
        assert(wants(l, lights, y));
        assert(same_segment(l, y, x));
    }
}

/// In a solution, no two cells of one segment hold a light.
pub proof fn lemma_one_per_segment(l: Layout, board: Board, lights: Seq<Seq<bool>>, x: int, y: int)
    requires
        board.wf(),
        charted(l, board),
        solves(board, lights),
        0 <= x < l.n,
        0 <= y < l.n,
        x != y,
        same_segment(l, y, x),
        wants(l, lights, x),
    ensures
        !wants(l, lights, y),
{
    if wants(l, lights, y) {
        lemma_segment_sight(l, board, x, y);
        let (i, k) = choose|i: int, k: int| in_sight(l, board, x, y, i, k);
        let pos = l.empty_pos;
        let r = pos[x].0 as int;
        let c = pos[x].1 as int;
        assert(board.open_at(r, c));
        assert(board.open_at(pos[y].0 as int, pos[y].1 as int));
        assert(sees(board, lights, r, c, direction(i), k));
        assert(sees_any(board, lights, r, c));
        assert(board.inside(r, c) && lights[r][c] && sees_any(board, lights, r, c));
    }
}

/// Blocking a cell on which the solution has no light keeps the solution in reach.
pub proof fn lemma_block_follows(
    l: Layout,
    a: Snapshot,
    b: Snapshot,
    lights: Seq<Seq<bool>>,
    cell: int,
)
    requires
        follows(l, a, lights),
        0 <= cell < l.n,
        a.cell_state.len() == l.n,
        !wants(l, lights, cell),
        b.cell_state == a.cell_state.update(cell, CellState::Blocked),
    ensures
        follows(l, b, lights),
{
    assert forall|x: int| 0 <= x < l.n implies ((#[trigger] b.cell_state[x]) == CellState::Light
        ==> wants(l, lights, x)) && (b.cell_state[x] == CellState::Blocked ==> !wants(
        l,
        lights,
        x,
    )) by {
        if x != cell {
            assert(a.cell_state[x] == b.cell_state[x]);
        }
    }
}

/// A light on a cell on which the solution has one keeps the solution in reach.
pub proof fn lemma_light_follows(
    l: Layout,
    a: Snapshot,
    b: Snapshot,
    lights: Seq<Seq<bool>>,
    cell: int,
)
    requires
        l.board.wf(),
        charted(l, l.board),
        follows(l, a, lights),
        0 <= cell < l.n,
        a.cell_state.len() == l.n,
        wants(l, lights, cell),
        b.cell_state == lit_state(l, a.cell_state, cell),
    ensures
        follows(l, b, lights),
{
    assert forall|x: int| 0 <= x < l.n implies ((#[trigger] b.cell_state[x]) == CellState::Light
        ==> wants(l, lights, x)) && (b.cell_state[x] == CellState::Blocked ==> !wants(
        l,
        lights,
        x,
    )) by {
        if x == cell {
        } else if same_segment(l, x, cell) {
            lemma_one_per_segment(l, l.board, lights, cell, x);
        } else {
            assert(a.cell_state[x] == b.cell_state[x]);
        }
    }
}

/// Every free cell of `ids` is listed among the free cells of `ids`.
pub proof fn lemma_free_of_holds(ids: Seq<usize>, st: Seq<CellState>, y: int)
    requires
        member(ids, y),
        st[y] != CellState::Blocked,
    ensures
        member(free_of(ids, st), y),
    decreases ids.len(),
{
    if ids.len() > 0 {
        let front = ids.drop_last();
        if ids.last() == y {
            let f = free_of(ids, st);
            assert(f[f.len() - 1] == y);
        } else {
            let i = choose|i: int| 0 <= i < ids.len() && #[trigger] ids[i] == y;
            assert(front[i] == y);
            lemma_free_of_holds(front, st, y);
            let j = choose|j: int|
                0 <= j < free_of(front, st).len() && #[trigger] free_of(front, st)[j] == y;
            assert(free_of(ids, st)[j] == y);
        }
    }
}

/// Everything in `base` and every free cell of `ids` is gathered.
pub proof fn lemma_gather_holds(base: Seq<usize>, ids: Seq<usize>, st: Seq<CellState>, y: int)
    requires
        member(base, y) || (member(ids, y) && st[y] != CellState::Blocked),
    ensures
        member(gather(base, ids, st), y),
    decreases ids.len(),
{
    if ids.len() == 0 {
        if !member(base, y) {
            let i = choose|i: int| 0 <= i < ids.len() && #[trigger] ids[i] == y;
        }
    } else {
        let front = ids.drop_last();
        let g0 = gather(base, front, st);
        let g = gather(base, ids, st);
        if !member(base, y) && ids.last() == y {
            if g0.contains(ids.last()) {
                let j = choose|j: int| 0 <= j < g0.len() && g0[j] == ids.last();
                assert(g[j] == y);
            } else {
                assert(g[g.len() - 1] == y);
            }
        } else {
            if !member(base, y) {
                let i = choose|i: int| 0 <= i < ids.len() && #[trigger] ids[i] == y;
                assert(front[i] == y);
            }
            lemma_gather_holds(base, front, st, y);
            let j = choose|j: int| 0 <= j < g0.len() && #[trigger] g0[j] == y;
            assert(g[j] == y);
        }
    }
}

/// Every cell that could light `x` is among its candidates.
pub proof fn lemma_candidates_hold(l: Layout, s: Snapshot, x: int, y: int)
    requires
        sound(l, s),
        0 <= x < l.n,
        is_candidate(l, s, l.row_seg_id[x] as int, l.col_seg_id[x] as int, y),
    ensures
        member(candidates(l, s, x), y),
{
    let rs = l.row_seg_id[x] as int;
    let cs = l.col_seg_id[x] as int;
    let row = l.row_cells[rs];
    let col = l.col_cells[cs];
    assert(member(l.row_cells[rs], y) <==> l.row_seg_id[y] == rs);
    assert(member(l.col_cells[cs], y) <==> l.col_seg_id[y] == cs);
    if l.row_seg_id[y] == rs {
        lemma_free_of_holds(row, s.cell_state, y);
    }
    lemma_gather_holds(free_of(row, s.cell_state), col, s.cell_state, y);
}

/// A list that names two different cells not in state `kind` has at least
/// two cells fewer in that state than it has cells.
pub proof fn lemma_count_in_room_two(
    ids: Seq<usize>,
    st: Seq<CellState>,
    y: int,
    z: int,
    kind: CellState,
)
    requires
        member(ids, y),
        member(ids, z),
        y != z,
        st[y] != kind,
        st[z] != kind,
    ensures
        count_in(ids, st, kind) + 2 <= ids.len(),
    decreases ids.len(),
{
    if ids.len() > 0 {
        let front = ids.drop_last();
        lemma_count_in_bound(front, st, kind);
        let iy = choose|i: int| 0 <= i < ids.len() && #[trigger] ids[i] == y;
        let iz = choose|i: int| 0 <= i < ids.len() && #[trigger] ids[i] == z;
        if ids.last() == y {
            assert(front[iz] == z);
            lemma_count_in_room(front, st, z, kind);
        } else if ids.last() == z {
            assert(front[iy] == y);
            lemma_count_in_room(front, st, y, kind);
        } else {
            assert(front[iy] == y);
            assert(front[iz] == z);
            lemma_count_in_room_two(front, st, y, z, kind);
        }
    }
}


/// With a solution in reach, the lights beside a wall are at most its
/// number, and with the unknown cells at least its number. Where the
/// number is met already, the solution has no light on the unknown cells
/// beside the wall; where all of them are needed, it has a light on each.
pub proof fn lemma_wall_bounds(l: Layout, s: Snapshot, lights: Seq<Seq<bool>>, k: int)
    requires
        l.board.wf(),
        charted(l, l.board),
        sound(l, s),
        follows(l, s, lights),
        0 <= k < l.num_adj.len(),
    ensures
        s.num_on[k] <= l.num_value[k] <= s.num_on[k] + s.num_unk[k],
        s.num_on[k] == l.num_value[k] ==> forall|j: int|
            0 <= j < l.num_adj[k].len() && s.cell_state[(#[trigger] l.num_adj[k][j]) as int]
                == CellState::Unknown ==> !wants(l, lights, l.num_adj[k][j] as int),
        s.num_on[k] + s.num_unk[k] == l.num_value[k] ==> forall|j: int|
            0 <= j < l.num_adj[k].len() && s.cell_state[(#[trigger] l.num_adj[k][j]) as int]
                == CellState::Unknown ==> wants(l, lights, l.num_adj[k][j] as int),
{
    let ids = l.num_adj[k];
    let full = as_state(l, lights);
    lemma_wall_wanted(l, l.board, lights, k);
    lemma_compat_states(l, s, lights);
    lemma_count_between(ids, s.cell_state, full);
    assert(s.num_on[k] == count_in(ids, s.cell_state, CellState::Light));
    assert(s.num_unk[k] == count_in(ids, s.cell_state, CellState::Unknown));
    if s.num_on[k] == l.num_value[k] {
        assert forall|j: int|
            0 <= j < ids.len() && s.cell_state[(#[trigger] ids[j]) as int]
                == CellState::Unknown implies !wants(l, lights, ids[j] as int) by {
            assert(ids[j] < l.n);
            if wants(l, lights, ids[j] as int) {
                assert(full[ids[j] as int] == CellState::Light);
            }
        }
    }
    if s.num_on[k] + s.num_unk[k] == l.num_value[k] {
        assert forall|j: int|
            0 <= j < ids.len() && s.cell_state[(#[trigger] ids[j]) as int]
                == CellState::Unknown implies wants(l, lights, ids[j] as int) by {
            assert(ids[j] < l.n);
            assert(full[ids[j] as int] == CellState::Light);
        }
    }
}

/// With a solution in reach, every cell has a candidate on which the solution has a light.
pub proof fn lemma_wanted_candidate(l: Layout, s: Snapshot, lights: Seq<Seq<bool>>, x: int)
    requires
        l.board.wf(),
        charted(l, l.board),
        sound(l, s),
        follows(l, s, lights),
        0 <= x < l.n,
    ensures
        exists|y: int|
            #[trigger] is_candidate(l, s, l.row_seg_id[x] as int, l.col_seg_id[x] as int, y)
                && wants(l, lights, y),
{
    lemma_must_be_lit(l, l.board, lights, x);
    let y = choose|y: int| 0 <= y < l.n && same_segment(l, y, x) && #[trigger] wants(l, lights, y);
    assert(s.cell_state[y] != CellState::Blocked);
    assert(is_candidate(l, s, l.row_seg_id[x] as int, l.col_seg_id[x] as int, y));
}

/// A cell with a candidate counts at least one, and a cell with two counts at least two.
pub proof fn lemma_cand_count(l: Layout, s: Snapshot, x: int, y: int, z: int)
    requires
        sound(l, s),
        0 <= x < l.n,
        is_candidate(l, s, l.row_seg_id[x] as int, l.col_seg_id[x] as int, y),
        is_candidate(l, s, l.row_seg_id[x] as int, l.col_seg_id[x] as int, z),
    ensures
        cand_count(l, s, x) >= 1,
        y != z ==> cand_count(l, s, x) >= 2,
{
    let rs = l.row_seg_id[x] as int;
    let cs = l.col_seg_id[x] as int;
    let row = l.row_cells[rs];
    let col = l.col_cells[cs];
    let st = s.cell_state;
    let blocked = CellState::Blocked;
    assert(s.row_free[rs] + count_in(row, st, blocked) == row.len());
    assert(s.col_free[cs] + count_in(col, st, blocked) == col.len());
    lemma_count_in_bound(row, st, blocked);
    lemma_count_in_bound(col, st, blocked);
    assert(member(l.row_cells[rs], x) <==> l.row_seg_id[x] == rs);
    assert(member(l.col_cells[cs], x) <==> l.col_seg_id[x] == cs);
    assert(member(l.row_cells[rs], y) <==> l.row_seg_id[y] == rs);
    assert(member(l.col_cells[cs], y) <==> l.col_seg_id[y] == cs);
    assert(member(l.row_cells[rs], z) <==> l.row_seg_id[z] == rs);
    assert(member(l.col_cells[cs], z) <==> l.col_seg_id[z] == cs);
    let in_row_y = l.row_seg_id[y] == rs;
    let in_row_z = l.row_seg_id[z] == rs;
    if st[x] != blocked {
        lemma_count_in_room(row, st, x, blocked);
        lemma_count_in_room(col, st, x, blocked);
        if y != x {
            if in_row_y {
                lemma_count_in_room_two(row, st, x, y, blocked);
            } else {
                lemma_count_in_room_two(col, st, x, y, blocked);
            }
        }
        if z != x {
            if in_row_z {
                lemma_count_in_room_two(row, st, x, z, blocked);
            } else {
                lemma_count_in_room_two(col, st, x, z, blocked);
            }
        }
    } else {
        if in_row_y {
            lemma_count_in_room(row, st, y, blocked);
        } else {
            lemma_count_in_room(col, st, y, blocked);
        }
        if in_row_z {
            lemma_count_in_room(row, st, z, blocked);
        } else {
            lemma_count_in_room(col, st, z, blocked);
        }
        if y != z {
            if in_row_y && in_row_z {
                lemma_count_in_room_two(row, st, y, z, blocked);
            }
            if !in_row_y && !in_row_z {
                lemma_count_in_room_two(col, st, y, z, blocked);
            }
        }
    }
}

/// A dark cell is uncovered: a segment with a light has no dark cell.
pub proof fn lemma_dark_uncovered(l: Layout, s: Snapshot, x: int)
    requires
        sound(l, s),
        0 <= x < l.n,
        s.lit_count[x] == 0,
    ensures
        uncovered(l, s, x),
{
    let rs = l.row_seg_id[x] as int;
    let cs = l.col_seg_id[x] as int;
    lemma_count_in_positive(l.lit_list[x], s.cell_state, CellState::Light);
    assert(s.lit_count[x] == count_in(l.lit_list[x], s.cell_state, CellState::Light));
    if s.row_light[rs] is Some {
        let y = s.row_light[rs]->0 as int;
        assert(member(l.lit_list[x], y) <==> (l.row_seg_id[y] == l.row_seg_id[x] || l.col_seg_id[y]
            == l.col_seg_id[x]));
        let j = choose|j: int| 0 <= j < l.lit_list[x].len() && #[trigger] l.lit_list[x][j] == y;
        assert(s.cell_state[l.lit_list[x][j] as int] == CellState::Light);
    }
    if s.col_light[cs] is Some {
        let y = s.col_light[cs]->0 as int;
        assert(member(l.lit_list[x], y) <==> (l.row_seg_id[y] == l.row_seg_id[x] || l.col_seg_id[y]
            == l.col_seg_id[x]));
        let j = choose|j: int| 0 <= j < l.lit_list[x].len() && #[trigger] l.lit_list[x][j] == y;
        assert(s.cell_state[l.lit_list[x][j] as int] == CellState::Light);
    }
}

/// A list without unknown cells counts none.
pub proof fn lemma_count_none(ids: Seq<usize>, st: Seq<CellState>, kind: CellState)
    requires
        forall|i: int| 0 <= i < ids.len() ==> st[(#[trigger] ids[i]) as int] != kind,
    ensures
        count_in(ids, st, kind) == 0,
    decreases ids.len(),
{
    if ids.len() > 0 {
        let front = ids.drop_last();
        assert forall|i: int| 0 <= i < front.len() implies st[(#[trigger] front[i]) as int]
            != kind by {
            assert(front[i] == ids[i]);
        }
        lemma_count_none(front, st, kind);
        assert(st[ids[ids.len() - 1] as int] != kind);
    }
}

/// With a solution in reach, a settled state that is not solved has a dark cell.
pub proof fn lemma_unsolved_is_dark(l: Layout, s: Snapshot, lights: Seq<Seq<bool>>)
    requires
        l.board.wf(),
        charted(l, l.board),
        sound(l, s),
        tidy(l, s),
        follows(l, s, lights),
        !solved(l, s),
    ensures
        exists|x: int| 0 <= x < l.n && #[trigger] s.lit_count[x] == 0,
{
    if forall|x: int| 0 <= x < l.n ==> (#[trigger] s.lit_count[x]) > 0 {
        // every cell is lit, so none is unknown
        assert forall|x: int| 0 <= x < l.n implies (#[trigger] s.cell_state[x])
            != CellState::Unknown by {
            assert(s.lit_count[x] > 0);
            assert(s.lit_count[x] == count_in(l.lit_list[x], s.cell_state, CellState::Light));
            lemma_count_in_positive(l.lit_list[x], s.cell_state, CellState::Light);
            let j = choose|j: int|
                0 <= j < l.lit_list[x].len() && s.cell_state[#[trigger] l.lit_list[x][j] as int]
                    == CellState::Light;
            let y = l.lit_list[x][j] as int;
            assert(member(l.lit_list[x], y));
            assert(member(l.lit_list[x], y) <==> (l.row_seg_id[y] == l.row_seg_id[x]
                || l.col_seg_id[y] == l.col_seg_id[x]));
            if y != x {
                assert(s.cell_state[y] == CellState::Light);
                assert(s.cell_state[x] == CellState::Blocked);
            }
        }
        assert forall|k: int| 0 <= k < l.num_adj.len() implies (#[trigger] s.num_on[k])
            == l.num_value[k] by {
            lemma_wall_bounds(l, s, lights, k);
            assert forall|i: int| 0 <= i < l.num_adj[k].len() implies s.cell_state[(
            #[trigger] l.num_adj[k][i]) as int] != CellState::Unknown by {
                assert(l.num_adj[k][i] < l.n);
            }
            lemma_count_none(l.num_adj[k], s.cell_state, CellState::Unknown);
            assert(s.num_unk[k] == count_in(l.num_adj[k], s.cell_state, CellState::Unknown));
        }
        assert(solved(l, s));
    }
}


/// The placement of a solved state that has grown out of state `a` is a
/// solution in reach of `a`.
pub proof fn lemma_grown_follows(l: Layout, a: Snapshot, b: Snapshot)
    requires
        l.board.wf(),
        charted(l, l.board),
        sound(l, b),
        tidy(l, b),
        solved(l, b),
        refines(a.cell_state, b.cell_state),
        a.cell_state.len() == l.n,
    ensures
        follows(l, a, lights_in(l, b.cell_state, l.board)),
{
    crate::solver::fast::lemma_solved_solves(l, b, l.board);
    let lights = lights_in(l, b.cell_state, l.board);
    assert forall|x: int| 0 <= x < l.n implies ((#[trigger] a.cell_state[x]) == CellState::Light
        ==> wants(l, lights, x)) && (a.cell_state[x] == CellState::Blocked ==> !wants(
        l,
        lights,
        x,
    )) by {
        let r = l.empty_pos[x].0 as int;
        let c = l.empty_pos[x].1 as int;
        assert(l.board.open_at(r, c));
        assert(id_at(l.empty_pos, r, c) == x) by {
            let y = id_at(l.empty_pos, r, c);
            assert(l.empty_pos[y] == l.empty_pos[x]);
        }
        assert(b.cell_state[x] == a.cell_state[x] || a.cell_state[x] == CellState::Unknown);
        assert(lights[r][c] == (b.cell_state[x] == CellState::Light));
    }
}

} // verus!
