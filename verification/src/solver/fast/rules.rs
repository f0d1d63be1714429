//! The two edits of the state, blocking a cell and lighting a cell, and
//! what holds of the state between them.

use std::collections::VecDeque;
use vstd::prelude::*;
use crate::solver::lit;
use crate::solver::fast::{
    below, charted, count_all, count_in, extends, lemma_count_all_update, lemma_count_in_bound,
    lemma_count_in_update, lemma_extends_chain, lemma_extends_self, lemma_member_concat,
    lemma_refines_chain, lemma_take_fresh, lemma_take_member, lemma_unknowns_chain,
    lemma_unknowns_drop, member, no_dups, one_when, refines, sized, CellState, Core, Layout,
    Snapshot,
};

verus! {

/// The fixed part is consistent: every list names cells (or walls) that
/// exist and names none twice; a segment lists exactly the cells that carry
/// its number; a wall lists a cell exactly when the cell lists the wall; a
/// cell's lit list holds exactly the cells that share a segment with it.
pub open spec fn layout_ok(l: Layout) -> bool {
    &&& l.n <= usize::MAX
    &&& l.empty_pos.len() == l.n
    &&& l.row_seg_id.len() == l.n
    &&& l.col_seg_id.len() == l.n
    &&& l.num_adj_of_empty.len() == l.n
    &&& l.lit_list.len() == l.n
    &&& l.num_value.len() == l.num_adj.len()
    &&& forall|x: int| 0 <= x < l.n ==> (#[trigger] l.row_seg_id[x]) < l.row_cells.len()
    &&& forall|x: int| 0 <= x < l.n ==> (#[trigger] l.col_seg_id[x]) < l.col_cells.len()
    &&& forall|s: int|
        0 <= s < l.row_cells.len() ==> below(#[trigger] l.row_cells[s], l.n) && no_dups(
            l.row_cells[s],
        )
    &&& forall|s: int|
        0 <= s < l.col_cells.len() ==> below(#[trigger] l.col_cells[s], l.n) && no_dups(
            l.col_cells[s],
        )
    &&& forall|s: int, x: int|
        0 <= s < l.row_cells.len() && 0 <= x < l.n ==> (#[trigger] member(l.row_cells[s], x)
            <==> l.row_seg_id[x] == s)
    &&& forall|s: int, x: int|
        0 <= s < l.col_cells.len() && 0 <= x < l.n ==> (#[trigger] member(l.col_cells[s], x)
            <==> l.col_seg_id[x] == s)
    &&& forall|k: int|
        0 <= k < l.num_adj.len() ==> below(#[trigger] l.num_adj[k], l.n) && no_dups(l.num_adj[k])
            && l.num_adj[k].len() <= 4 && l.num_value[k] <= 4
    &&& forall|x: int|
        0 <= x < l.n ==> below(#[trigger] l.num_adj_of_empty[x], l.num_adj.len()) && no_dups(
            l.num_adj_of_empty[x],
        )
    &&& forall|x: int, k: int|
        0 <= x < l.n && 0 <= k < l.num_adj.len() ==> (#[trigger] member(l.num_adj_of_empty[x], k)
            <==> member(l.num_adj[k], x))
    &&& forall|x: int|
        0 <= x < l.n ==> below(#[trigger] l.lit_list[x], l.n) && no_dups(l.lit_list[x])
    &&& forall|x: int, c: int|
        0 <= x < l.n && 0 <= c < l.n ==> (#[trigger] member(l.lit_list[x], c) <==> (l.row_seg_id[c]
            == l.row_seg_id[x] || l.col_seg_id[c] == l.col_seg_id[x]))
}

/// Every counter holds what it is meant to count.
pub open spec fn counts_ok(l: Layout, s: Snapshot) -> bool {
    &&& forall|g: int|
        0 <= g < l.row_cells.len() ==> (#[trigger] s.row_free[g]) + count_in(
            l.row_cells[g],
            s.cell_state,
            CellState::Blocked,
        ) == l.row_cells[g].len()
    &&& forall|g: int|
        0 <= g < l.col_cells.len() ==> (#[trigger] s.col_free[g]) + count_in(
            l.col_cells[g],
            s.cell_state,
            CellState::Blocked,
        ) == l.col_cells[g].len()
    &&& forall|k: int|
        0 <= k < l.num_adj.len() ==> (#[trigger] s.num_on[k]) == count_in(
            l.num_adj[k],
            s.cell_state,
            CellState::Light,
        )
    &&& forall|k: int|
        0 <= k < l.num_adj.len() ==> (#[trigger] s.num_unk[k]) == count_in(
            l.num_adj[k],
            s.cell_state,
            CellState::Unknown,
        )
    &&& forall|x: int|
        0 <= x < l.n ==> (#[trigger] s.lit_count[x]) == count_in(
            l.lit_list[x],
            s.cell_state,
            CellState::Light,
        )
}

/// The light that a segment names is a cell of the segment and holds a light.
pub open spec fn lights_ok(l: Layout, s: Snapshot) -> bool {
    &&& forall|g: int|
        0 <= g < l.row_cells.len() ==> ((#[trigger] s.row_light[g]) matches Some(x) ==> x < l.n
            && l.row_seg_id[x as int] == g && s.cell_state[x as int] == CellState::Light)
    &&& forall|g: int|
        0 <= g < l.col_cells.len() ==> ((#[trigger] s.col_light[g]) matches Some(x) ==> x < l.n
            && l.col_seg_id[x as int] == g && s.cell_state[x as int] == CellState::Light)
}

/// The state is consistent at any time between two edits.
pub open spec fn sound(l: Layout, s: Snapshot) -> bool {
    layout_ok(l) && sized(l, s) && counts_ok(l, s) && lights_ok(l, s)
}

/// The state is settled: every light is the light of both its segments,
/// and every other cell of those segments is blocked.
pub open spec fn tidy(l: Layout, s: Snapshot) -> bool {
    &&& forall|x: int|
        0 <= x < l.n && (#[trigger] s.cell_state[x]) == CellState::Light ==> s.row_light[l.row_seg_id[x] as int]
            == Some(x as usize) && s.col_light[l.col_seg_id[x] as int] == Some(x as usize)
    &&& forall|x: int, y: int|
        0 <= x < l.n && 0 <= y < l.n && x != y && (#[trigger] s.cell_state[x]) == CellState::Light
            && (l.row_seg_id[y] == l.row_seg_id[x] || l.col_seg_id[y] == l.col_seg_id[x])
            ==> (#[trigger] s.cell_state[y]) == CellState::Blocked
}

/// The queue names only walls that exist.
pub open spec fn queue_ok(q: Seq<usize>, l: Layout) -> bool {
    below(q, l.num_adj.len())
}

/// Blocking an unknown cell, with the counters of its segments and of the
/// walls beside it brought up to date, keeps the state consistent.
pub proof fn lemma_blocked_sound(l: Layout, a: Snapshot, b: Snapshot, cell: int)
    requires
        sound(l, a),
        sized(l, b),
        0 <= cell < l.n,
        a.cell_state[cell] == CellState::Unknown,
        b.cell_state == a.cell_state.update(cell, CellState::Blocked),
        b.row_light == a.row_light,
        b.col_light == a.col_light,
        b.lit_count == a.lit_count,
        b.num_on == a.num_on,
        b.row_free == a.row_free.update(
            l.row_seg_id[cell] as int,
            (a.row_free[l.row_seg_id[cell] as int] - 1) as usize,
        ),
        b.col_free == a.col_free.update(
            l.col_seg_id[cell] as int,
            (a.col_free[l.col_seg_id[cell] as int] - 1) as usize,
        ),
        forall|k: int|
            0 <= k < l.num_adj.len() ==> (#[trigger] b.num_unk[k]) == a.num_unk[k] - one_when(
                member(l.num_adj[k], cell),
            ),
    ensures
        a.row_free[l.row_seg_id[cell] as int] >= 1,
        a.col_free[l.col_seg_id[cell] as int] >= 1,
        sound(l, b),
        tidy(l, a) ==> tidy(l, b),
        count_all(b.cell_state, CellState::Unknown) < count_all(a.cell_state, CellState::Unknown),
{
    let st0 = a.cell_state;
    let st1 = b.cell_state;
    let rseg = l.row_seg_id[cell] as int;
    let cseg = l.col_seg_id[cell] as int;
    lemma_count_all_update(st0, cell, CellState::Blocked, CellState::Unknown);
    assert forall|g: int| 0 <= g < l.row_cells.len() implies (#[trigger] b.row_free[g]) + count_in(
        l.row_cells[g],
        st1,
        CellState::Blocked,
    ) == l.row_cells[g].len() by {
        lemma_count_in_update(l.row_cells[g], st0, cell, CellState::Blocked, CellState::Blocked);
        lemma_count_in_bound(l.row_cells[g], st1, CellState::Blocked);
        assert(member(l.row_cells[g], cell) <==> l.row_seg_id[cell] == g);
        assert(a.row_free[g] + count_in(l.row_cells[g], st0, CellState::Blocked)
            == l.row_cells[g].len());
    }
    assert forall|g: int| 0 <= g < l.col_cells.len() implies (#[trigger] b.col_free[g]) + count_in(
        l.col_cells[g],
        st1,
        CellState::Blocked,
    ) == l.col_cells[g].len() by {
        lemma_count_in_update(l.col_cells[g], st0, cell, CellState::Blocked, CellState::Blocked);
        lemma_count_in_bound(l.col_cells[g], st1, CellState::Blocked);
        assert(member(l.col_cells[g], cell) <==> l.col_seg_id[cell] == g);
        assert(a.col_free[g] + count_in(l.col_cells[g], st0, CellState::Blocked)
            == l.col_cells[g].len());
    }
    assert(a.row_free[rseg] >= 1) by {
        lemma_count_in_update(l.row_cells[rseg], st0, cell, CellState::Blocked, CellState::Blocked);
        lemma_count_in_bound(l.row_cells[rseg], st1, CellState::Blocked);
        assert(member(l.row_cells[rseg], cell) <==> l.row_seg_id[cell] == rseg);
        assert(a.row_free[rseg] + count_in(l.row_cells[rseg], st0, CellState::Blocked)
            == l.row_cells[rseg].len());
    }
    assert(a.col_free[cseg] >= 1) by {
        lemma_count_in_update(l.col_cells[cseg], st0, cell, CellState::Blocked, CellState::Blocked);
        lemma_count_in_bound(l.col_cells[cseg], st1, CellState::Blocked);
        assert(member(l.col_cells[cseg], cell) <==> l.col_seg_id[cell] == cseg);
        assert(a.col_free[cseg] + count_in(l.col_cells[cseg], st0, CellState::Blocked)
            == l.col_cells[cseg].len());
    }
    assert forall|k: int| 0 <= k < l.num_adj.len() implies (#[trigger] b.num_on[k]) == count_in(
        l.num_adj[k],
        st1,
        CellState::Light,
    ) by {
        lemma_count_in_update(l.num_adj[k], st0, cell, CellState::Blocked, CellState::Light);
        assert(a.num_on[k] == count_in(l.num_adj[k], st0, CellState::Light));
    }
    assert forall|k: int| 0 <= k < l.num_adj.len() implies (#[trigger] b.num_unk[k]) == count_in(
        l.num_adj[k],
        st1,
        CellState::Unknown,
    ) by {
        lemma_count_in_update(l.num_adj[k], st0, cell, CellState::Blocked, CellState::Unknown);
        assert(a.num_unk[k] == count_in(l.num_adj[k], st0, CellState::Unknown));
    }
    assert forall|x: int| 0 <= x < l.n implies (#[trigger] b.lit_count[x]) == count_in(
        l.lit_list[x],
        st1,
        CellState::Light,
    ) by {
        lemma_count_in_update(l.lit_list[x], st0, cell, CellState::Blocked, CellState::Light);
        assert(a.lit_count[x] == count_in(l.lit_list[x], st0, CellState::Light));
    }
    assert(lights_ok(l, b)) by {
        assert forall|g: int| 0 <= g < l.row_cells.len() implies ((
        #[trigger] b.row_light[g]) matches Some(x) ==> x < l.n && l.row_seg_id[x as int] == g
            && b.cell_state[x as int] == CellState::Light) by {
            assert(a.row_light[g] == b.row_light[g]);
        }
        assert forall|g: int| 0 <= g < l.col_cells.len() implies ((
        #[trigger] b.col_light[g]) matches Some(x) ==> x < l.n && l.col_seg_id[x as int] == g
            && b.cell_state[x as int] == CellState::Light) by {
            assert(a.col_light[g] == b.col_light[g]);
        }
    }
    if tidy(l, a) {
        assert forall|x: int|
            0 <= x < l.n && (#[trigger] b.cell_state[x]) == CellState::Light implies b.row_light[l.row_seg_id[x] as int]
            == Some(x as usize) && b.col_light[l.col_seg_id[x] as int] == Some(x as usize) by {
            assert(a.cell_state[x] == CellState::Light);
        }
        assert forall|x: int, y: int|
            0 <= x < l.n && 0 <= y < l.n && x != y && (#[trigger] b.cell_state[x])
                == CellState::Light && (l.row_seg_id[y] == l.row_seg_id[x] || l.col_seg_id[y]
                == l.col_seg_id[x]) implies (#[trigger] b.cell_state[y]) == CellState::Blocked by {
            assert(a.cell_state[x] == CellState::Light);
            assert(a.cell_state[y] == CellState::Blocked);
        }
    }
}

/// The two cells share a row segment or a column segment.
pub open spec fn same_segment(l: Layout, x: int, y: int) -> bool {
    l.row_seg_id[x] == l.row_seg_id[y] || l.col_seg_id[x] == l.col_seg_id[y]
}

/// The cell states after a light is put on `cell`: the light itself, and
/// every other cell of its two segments blocked.
pub open spec fn lit_state(l: Layout, st: Seq<CellState>, cell: int) -> Seq<CellState> {
    Seq::new(
        st.len(),
        |x: int|
            if x == cell {
                CellState::Light
            } else if same_segment(l, x, cell) {
                CellState::Blocked
            } else {
                st[x]
            },
    )
}

/// A light can be put on `cell`: neither of its segments has a light
/// already, and no other cell of them holds one.
pub open spec fn can_light(l: Layout, s: Snapshot, cell: int) -> bool {
    &&& s.row_light[l.row_seg_id[cell] as int] is None
    &&& s.col_light[l.col_seg_id[cell] as int] is None
    &&& forall|y: int|
        0 <= y < l.n && y != cell && same_segment(l, y, cell) ==> (#[trigger] s.cell_state[y])
            != CellState::Light
}

/// In a settled state a light can be put on any unknown cell.
pub proof fn lemma_settled_can_light(l: Layout, s: Snapshot, cell: int)
    requires
        sound(l, s),
        tidy(l, s),
        0 <= cell < l.n,
        s.cell_state[cell] == CellState::Unknown,
    ensures
        can_light(l, s, cell),
{
    let rseg = l.row_seg_id[cell] as int;
    let cseg = l.col_seg_id[cell] as int;
    if s.row_light[rseg] is Some {
        let x = s.row_light[rseg]->0 as int;
        assert(s.cell_state[x] == CellState::Light);
        assert(s.cell_state[cell] == CellState::Blocked);
    }
    if s.col_light[cseg] is Some {
        let x = s.col_light[cseg]->0 as int;
        assert(s.cell_state[x] == CellState::Light);
        assert(s.cell_state[cell] == CellState::Blocked);
    }
    assert forall|y: int| 0 <= y < l.n && y != cell && same_segment(l, y, cell) implies (
    #[trigger] s.cell_state[y]) != CellState::Light by {
        if s.cell_state[y] == CellState::Light {
            assert(s.cell_state[cell] == CellState::Blocked);
        }
    }
}

/// A light on an unknown cell, with the lit counts and the counters of the
/// walls beside it brought up to date, keeps the state consistent.
pub proof fn lemma_lit_sound(l: Layout, a: Snapshot, b: Snapshot, cell: int)
    requires
        sound(l, a),
        sized(l, b),
        0 <= cell < l.n,
        a.cell_state[cell] == CellState::Unknown,
        b.cell_state == a.cell_state.update(cell, CellState::Light),
        b.row_light == a.row_light,
        b.col_light == a.col_light,
        b.row_free == a.row_free,
        b.col_free == a.col_free,
        forall|x: int|
            0 <= x < l.n ==> (#[trigger] b.lit_count[x]) == a.lit_count[x] + one_when(
                member(l.lit_list[cell], x),
            ),
        forall|k: int|
            0 <= k < l.num_adj.len() ==> (#[trigger] b.num_on[k]) == a.num_on[k] + one_when(
                member(l.num_adj[k], cell),
            ),
        forall|k: int|
            0 <= k < l.num_adj.len() ==> (#[trigger] b.num_unk[k]) == a.num_unk[k] - one_when(
                member(l.num_adj[k], cell),
            ),
    ensures
        sound(l, b),
{
    let st0 = a.cell_state;
    let st1 = b.cell_state;
    assert forall|g: int| 0 <= g < l.row_cells.len() implies (#[trigger] b.row_free[g]) + count_in(
        l.row_cells[g],
        st1,
        CellState::Blocked,
    ) == l.row_cells[g].len() by {
        lemma_count_in_update(l.row_cells[g], st0, cell, CellState::Light, CellState::Blocked);
        assert(a.row_free[g] + count_in(l.row_cells[g], st0, CellState::Blocked)
            == l.row_cells[g].len());
    }
    assert forall|g: int| 0 <= g < l.col_cells.len() implies (#[trigger] b.col_free[g]) + count_in(
        l.col_cells[g],
        st1,
        CellState::Blocked,
    ) == l.col_cells[g].len() by {
        lemma_count_in_update(l.col_cells[g], st0, cell, CellState::Light, CellState::Blocked);
        assert(a.col_free[g] + count_in(l.col_cells[g], st0, CellState::Blocked)
            == l.col_cells[g].len());
    }
    assert forall|k: int| 0 <= k < l.num_adj.len() implies (#[trigger] b.num_on[k]) == count_in(
        l.num_adj[k],
        st1,
        CellState::Light,
    ) by {
        lemma_count_in_update(l.num_adj[k], st0, cell, CellState::Light, CellState::Light);
        assert(a.num_on[k] == count_in(l.num_adj[k], st0, CellState::Light));
    }
    assert forall|k: int| 0 <= k < l.num_adj.len() implies (#[trigger] b.num_unk[k]) == count_in(
        l.num_adj[k],
        st1,
        CellState::Unknown,
    ) by {
        lemma_count_in_update(l.num_adj[k], st0, cell, CellState::Light, CellState::Unknown);
        assert(a.num_unk[k] == count_in(l.num_adj[k], st0, CellState::Unknown));
    }
    assert forall|x: int| 0 <= x < l.n implies (#[trigger] b.lit_count[x]) == count_in(
        l.lit_list[x],
        st1,
        CellState::Light,
    ) by {
        lemma_count_in_update(l.lit_list[x], st0, cell, CellState::Light, CellState::Light);
        assert(a.lit_count[x] == count_in(l.lit_list[x], st0, CellState::Light));
        assert(member(l.lit_list[x], cell) <==> same_segment(l, cell, x));
        assert(member(l.lit_list[cell], x) <==> same_segment(l, x, cell));
    }
    assert(lights_ok(l, b)) by {
        assert forall|g: int| 0 <= g < l.row_cells.len() implies ((
        #[trigger] b.row_light[g]) matches Some(x) ==> x < l.n && l.row_seg_id[x as int] == g
            && b.cell_state[x as int] == CellState::Light) by {
            assert(a.row_light[g] == b.row_light[g]);
        }
        assert forall|g: int| 0 <= g < l.col_cells.len() implies ((
        #[trigger] b.col_light[g]) matches Some(x) ==> x < l.n && l.col_seg_id[x as int] == g
            && b.cell_state[x as int] == CellState::Light) by {
            assert(a.col_light[g] == b.col_light[g]);
        }
    }
}

/// Naming the light of a segment keeps the state consistent.
pub proof fn lemma_named_sound(l: Layout, a: Snapshot, b: Snapshot, cell: int, by_row: bool)
    requires
        sound(l, a),
        0 <= cell < l.n,
        a.cell_state[cell] == CellState::Light,
        by_row ==> b == (Snapshot {
            row_light: a.row_light.update(l.row_seg_id[cell] as int, Some(cell as usize)),
            trail: b.trail,
            ..a
        }),
        !by_row ==> b == (Snapshot {
            col_light: a.col_light.update(l.col_seg_id[cell] as int, Some(cell as usize)),
            trail: b.trail,
            ..a
        }),
        sized(l, b),
    ensures
        sound(l, b),
{
    assert forall|g: int| 0 <= g < l.row_cells.len() implies ((
    #[trigger] b.row_light[g]) matches Some(x) ==> x < l.n && l.row_seg_id[x as int] == g
        && b.cell_state[x as int] == CellState::Light) by {
        if by_row && g == l.row_seg_id[cell] {
        } else {
            assert(a.row_light[g] == b.row_light[g]);
        }
    }
    assert forall|g: int| 0 <= g < l.col_cells.len() implies ((
    #[trigger] b.col_light[g]) matches Some(x) ==> x < l.n && l.col_seg_id[x as int] == g
        && b.cell_state[x as int] == CellState::Light) by {
        if !by_row && g == l.col_seg_id[cell] {
        } else {
            assert(a.col_light[g] == b.col_light[g]);
        }
    }
}

/// After a light was put on an unknown cell of a settled state, the state is settled again.
pub proof fn lemma_lit_settled(l: Layout, a: Snapshot, b: Snapshot, cell: int)
    requires
        sound(l, a),
        tidy(l, a),
        0 <= cell < l.n,
        a.cell_state[cell] == CellState::Unknown,
        b.cell_state == lit_state(l, a.cell_state, cell),
        b.row_light == a.row_light.update(l.row_seg_id[cell] as int, Some(cell as usize)),
        b.col_light == a.col_light.update(l.col_seg_id[cell] as int, Some(cell as usize)),
    ensures
        tidy(l, b),
{
    lemma_settled_can_light(l, a, cell);
    assert forall|x: int|
        0 <= x < l.n && (#[trigger] b.cell_state[x]) == CellState::Light implies b.row_light[l.row_seg_id[x] as int]
        == Some(x as usize) && b.col_light[l.col_seg_id[x] as int] == Some(x as usize) by {
        if x != cell {
            assert(a.cell_state[x] == CellState::Light);
            assert(!same_segment(l, x, cell));
        }
    }
    assert forall|x: int, y: int|
        0 <= x < l.n && 0 <= y < l.n && x != y && (#[trigger] b.cell_state[x]) == CellState::Light
            && (l.row_seg_id[y] == l.row_seg_id[x] || l.col_seg_id[y] == l.col_seg_id[x]) implies (
    #[trigger] b.cell_state[y]) == CellState::Blocked by {
        if x == cell {
            assert(same_segment(l, y, cell));
        } else {
            assert(a.cell_state[x] == CellState::Light);
            assert(!same_segment(l, x, cell));
            assert(a.cell_state[y] == CellState::Blocked);
            if y == cell {
            }
        }
    }
}

/// `x` lies in the row segment (or, for `by_row` false, the column segment) of `cell`.
pub open spec fn in_segment_of(l: Layout, by_row: bool, x: int, cell: int) -> bool {
    if by_row {
        l.row_seg_id[x] == l.row_seg_id[cell]
    } else {
        l.col_seg_id[x] == l.col_seg_id[cell]
    }
}

/// The cell states after every cell of one segment of `cell`, but `cell` itself, is blocked.
pub open spec fn others_blocked(l: Layout, st: Seq<CellState>, by_row: bool, cell: int) -> Seq<
    CellState,
> {
    Seq::new(
        st.len(),
        |x: int|
            if x != cell && in_segment_of(l, by_row, x, cell) {
                CellState::Blocked
            } else {
                st[x]
            },
    )
}

/// The counters of wall `k` are the same in both states.
pub open spec fn wall_same(a: Snapshot, b: Snapshot, k: int) -> bool {
    a.num_on[k] == b.num_on[k] && a.num_unk[k] == b.num_unk[k]
}

/// From state `a` with queue `qa` the work has gone on to state `b` with
/// queue `qb`: what was queued is queued, every wall whose counters have
/// changed is queued, and the states of the cells have only become known.
pub open spec fn advanced(l: Layout, a: Snapshot, b: Snapshot, qa: Seq<usize>, qb: Seq<usize>) -> bool {
    &&& forall|k: int| #[trigger] member(qa, k) ==> member(qb, k)
    &&& forall|k: int| 0 <= k < l.num_adj.len() && !#[trigger] wall_same(a, b, k) ==> member(qb, k)
    &&& refines(a.cell_state, b.cell_state)
}

/// Nothing is forced at wall `k`: its number can still be met, and where
/// it is met or needs all unknown cells, no unknown cell is left beside it.
pub open spec fn quiet_wall(l: Layout, s: Snapshot, k: int) -> bool {
    &&& s.num_on[k] <= l.num_value[k] <= s.num_on[k] + s.num_unk[k]
    &&& s.num_unk[k] > 0 ==> s.num_on[k] < l.num_value[k] < s.num_on[k] + s.num_unk[k]
}

/// Nothing is forced at any wall that is not in the queue.
pub open spec fn quiet_outside(l: Layout, s: Snapshot, q: Seq<usize>) -> bool {
    forall|k: int| 0 <= k < l.num_adj.len() && !member(q, k) ==> #[trigger] quiet_wall(l, s, k)
}

/// Standing still is going on.
pub proof fn lemma_advanced_self(l: Layout, a: Snapshot, q: Seq<usize>)
    ensures
        advanced(l, a, a, q, q),
{
}

/// Going on from where the work went on is going on.
pub proof fn lemma_advanced_chain(
    l: Layout,
    a: Snapshot,
    b: Snapshot,
    c: Snapshot,
    qa: Seq<usize>,
    qb: Seq<usize>,
    qc: Seq<usize>,
)
    requires
        advanced(l, a, b, qa, qb),
        advanced(l, b, c, qb, qc),
    ensures
        advanced(l, a, c, qa, qc),
{
    lemma_refines_chain(a.cell_state, b.cell_state, c.cell_state);
    assert forall|k: int| #[trigger] member(qa, k) implies member(qc, k) by {
        assert(member(qb, k));
    }
    assert forall|k: int| 0 <= k < l.num_adj.len() && !#[trigger] wall_same(a, c, k) implies member(
        qc,
        k,
    ) by {
        if !wall_same(a, b, k) {
            assert(member(qb, k));
        } else {
            assert(!wall_same(b, c, k));
        }
    }
}

/// A step that leaves cells and counters alone goes on from where the work stood.
pub proof fn lemma_advanced_same(
    l: Layout,
    a: Snapshot,
    b: Snapshot,
    c: Snapshot,
    qa: Seq<usize>,
    qb: Seq<usize>,
)
    requires
        advanced(l, a, b, qa, qb),
        c.cell_state == b.cell_state,
        c.num_on == b.num_on,
        c.num_unk == b.num_unk,
    ensures
        advanced(l, a, c, qa, qb),
{
    assert forall|k: int| 0 <= k < l.num_adj.len() && !#[trigger] wall_same(a, c, k) implies member(
        qb,
        k,
    ) by {
        assert(!wall_same(a, b, k));
    }
}

/// Walls that were quiet outside the queue are quiet outside the queue after the work went on.
pub proof fn lemma_quiet_kept(l: Layout, a: Snapshot, b: Snapshot, qa: Seq<usize>, qb: Seq<usize>)
    requires
        quiet_outside(l, a, qa),
        advanced(l, a, b, qa, qb),
    ensures
        quiet_outside(l, b, qb),
{
    assert forall|k: int| 0 <= k < l.num_adj.len() && !member(qb, k) implies #[trigger] quiet_wall(
        l,
        b,
        k,
    ) by {
        if member(qa, k) {
            assert(member(qb, k));
        }
        assert(quiet_wall(l, a, k));
        assert(wall_same(a, b, k));
    }
}

/// After the counters of the walls beside `cell` were changed and those
/// walls queued, the work has gone on.
pub proof fn lemma_advanced_walls(
    l: Layout,
    a: Snapshot,
    b: Snapshot,
    qa: Seq<usize>,
    qb: Seq<usize>,
    cell: int,
)
    requires
        layout_ok(l),
        0 <= cell < l.n,
        refines(a.cell_state, b.cell_state),
        qb == qa + l.num_adj_of_empty[cell],
        forall|k: int|
            0 <= k < l.num_adj.len() && !member(l.num_adj[k], cell) ==> #[trigger] wall_same(a, b, k),
    ensures
        advanced(l, a, b, qa, qb),
        forall|k: int| #[trigger] member(l.num_adj_of_empty[cell], k) ==> member(qb, k),
{
    assert forall|k: int| #[trigger] member(qa, k) implies member(qb, k) by {
        lemma_member_concat(qa, l.num_adj_of_empty[cell], k);
    }
    assert forall|k: int| #[trigger] member(l.num_adj_of_empty[cell], k) implies member(qb, k) by {
        lemma_member_concat(qa, l.num_adj_of_empty[cell], k);
    }
    assert forall|k: int| 0 <= k < l.num_adj.len() && !#[trigger] wall_same(a, b, k) implies member(
        qb,
        k,
    ) by {
        assert(member(l.num_adj[k], cell));
        assert(member(l.num_adj_of_empty[cell], k) <==> member(l.num_adj[k], cell));
        lemma_member_concat(qa, l.num_adj_of_empty[cell], k);
    }
}

impl Core {
    /// The state is consistent.
    pub open spec fn wf(&self) -> bool {
        sound(self.layout(), self.snapshot())
    }

    /// The fixed part of the state describes the board it was built for.
    pub open spec fn mapped(&self) -> bool {
        self.layout().board.wf() && charted(self.layout(), self.layout().board)
    }

    /// The state is settled.
    pub open spec fn settled(&self) -> bool {
        tidy(self.layout(), self.snapshot())
    }

    /// The number of cells of which nothing is known yet.
    pub open spec fn unknowns(&self) -> nat {
        count_all(self.snapshot().cell_state, CellState::Unknown)
    }

    /// Rules out a light on `cell`. An unknown cell becomes blocked, its
    /// two segments have one free cell less, and every wall beside it has
    /// one unknown neighbour less and is queued. A blocked cell stays as it
    /// is; on a cell that holds a light the answer is `false` and nothing
    /// changes.
    pub fn set_blocked(&mut self, cell: usize, q_num: &mut VecDeque<usize>) -> (ok: bool)
        requires
            old(self).wf(),
            cell < old(self).n_empty,
            queue_ok(old(q_num)@, old(self).layout()),
        ensures
            final(self).layout() == old(self).layout(),
            final(self).wf(),
            extends(old(self).snapshot(), final(self).snapshot()),
            queue_ok(final(q_num)@, final(self).layout()),
            old(self).settled() ==> final(self).settled(),
            final(self).snapshot().row_light == old(self).snapshot().row_light,
            final(self).snapshot().col_light == old(self).snapshot().col_light,
            final(self).snapshot().lit_count == old(self).snapshot().lit_count,
            final(self).snapshot().num_on == old(self).snapshot().num_on,
            advanced(
                old(self).layout(),
                old(self).snapshot(),
                final(self).snapshot(),
                old(q_num)@,
                final(q_num)@,
            ),
            match old(self).snapshot().cell_state[cell as int] {
                CellState::Blocked => ok && final(self).snapshot() == old(self).snapshot()
                    && final(q_num)@ == old(q_num)@,
                CellState::Light => !ok && final(self).snapshot() == old(self).snapshot()
                    && final(q_num)@ == old(q_num)@,
                CellState::Unknown => {
                    &&& ok
                    &&& final(self).snapshot().cell_state == old(self).snapshot().cell_state.update(
                        cell as int,
                        CellState::Blocked,
                    )
                    &&& final(self).unknowns() < old(self).unknowns()
                    &&& final(q_num)@ == old(q_num)@ + old(self).layout().num_adj_of_empty[cell as int]
                },
            },
    {
        let ghost l = self.layout();
        let ghost a = self.snapshot();
        proof {
            lemma_extends_self(a);
            lemma_advanced_self(l, a, q_num@);
        }
        match self.cell_state[cell] {
            CellState::Blocked => {
                return true;
            },
            CellState::Light => {
                return false;
            },
            CellState::Unknown => {},
        }
        proof {
            // the counters to be lowered are positive
            let st1 = a.cell_state.update(cell as int, CellState::Blocked);
            let rseg = l.row_seg_id[cell as int] as int;
            let cseg = l.col_seg_id[cell as int] as int;
            lemma_count_in_update(
                l.row_cells[rseg],
                a.cell_state,
                cell as int,
                CellState::Blocked,
                CellState::Blocked,
            );
            lemma_count_in_bound(l.row_cells[rseg], st1, CellState::Blocked);
            assert(member(l.row_cells[rseg], cell as int) <==> l.row_seg_id[cell as int] == rseg);
            assert(a.row_free[rseg] + count_in(l.row_cells[rseg], a.cell_state, CellState::Blocked)
                == l.row_cells[rseg].len());
            lemma_count_in_update(
                l.col_cells[cseg],
                a.cell_state,
                cell as int,
                CellState::Blocked,
                CellState::Blocked,
            );
            lemma_count_in_bound(l.col_cells[cseg], st1, CellState::Blocked);
            assert(member(l.col_cells[cseg], cell as int) <==> l.col_seg_id[cell as int] == cseg);
            assert(a.col_free[cseg] + count_in(l.col_cells[cseg], a.cell_state, CellState::Blocked)
                == l.col_cells[cseg].len());
        }
        self.write_state(cell, CellState::Blocked);
        proof {
            lemma_extends_chain(a, a, self.snapshot());
        }
        let ghost s1 = self.snapshot();

        let rseg = self.row_seg_id[cell];
        let prev_row = self.row_segs[rseg].free_cnt;
        self.write_row_free(rseg, prev_row - 1);
        proof {
            lemma_extends_chain(a, s1, self.snapshot());
        }
        let ghost s2 = self.snapshot();

        let cseg = self.col_seg_id[cell];
        let prev_col = self.col_segs[cseg].free_cnt;
        self.write_col_free(cseg, prev_col - 1);
        proof {
            lemma_extends_chain(a, s2, self.snapshot());
        }

        let ghost walls = l.num_adj_of_empty[cell as int];
        let count = self.num_adj_of_empty[cell].len();
        let mut i: usize = 0;
        while i < count
            invariant
                self.layout() == l,
                self.shaped(),
                sound(l, a),
                cell < l.n,
                a.cell_state[cell as int] == CellState::Unknown,
                walls == l.num_adj_of_empty[cell as int],
                count == walls.len(),
                0 <= i <= count,
                extends(a, self.snapshot()),
                self.snapshot().cell_state == a.cell_state.update(cell as int, CellState::Blocked),
                self.snapshot().row_light == a.row_light,
                self.snapshot().col_light == a.col_light,
                self.snapshot().lit_count == a.lit_count,
                self.snapshot().num_on == a.num_on,
                self.snapshot().row_free == a.row_free.update(
                    l.row_seg_id[cell as int] as int,
                    (a.row_free[l.row_seg_id[cell as int] as int] - 1) as usize,
                ),
                self.snapshot().col_free == a.col_free.update(
                    l.col_seg_id[cell as int] as int,
                    (a.col_free[l.col_seg_id[cell as int] as int] - 1) as usize,
                ),
                forall|k: int|
                    0 <= k < l.num_adj.len() ==> (#[trigger] self.snapshot().num_unk[k])
                        == a.num_unk[k] - one_when(member(walls.take(i as int), k)),
                q_num@ == old(q_num)@ + walls.take(i as int),
                queue_ok(old(q_num)@, l),
            decreases count - i,
        {
            let ghost before = self.snapshot();
            let idx = self.num_adj_of_empty[cell][i];
            assert(idx == walls[i as int]);
            assert(idx < l.num_adj.len());
            proof {
                assert(!member(walls.take(i as int), idx as int)) by {
                    if member(walls.take(i as int), idx as int) {
                        let j = choose|j: int|
                            0 <= j < walls.take(i as int).len() && #[trigger] walls.take(
                                i as int,
                            )[j] == idx as int;
                        assert(walls[j] != walls[i as int]);
                    }
                }
                assert(member(walls, idx as int));
                assert(member(l.num_adj_of_empty[cell as int], idx as int) <==> member(
                    l.num_adj[idx as int],
                    cell as int,
                ));
                lemma_count_in_update(
                    l.num_adj[idx as int],
                    a.cell_state,
                    cell as int,
                    CellState::Blocked,
                    CellState::Unknown,
                );
                assert(before.num_unk[idx as int] == a.num_unk[idx as int]);
                assert(a.num_unk[idx as int] == count_in(
                    l.num_adj[idx as int],
                    a.cell_state,
                    CellState::Unknown,
                ));
            }
            let prev_unk = self.num_cells[idx].unk;
            assert(prev_unk == before.num_unk[idx as int]);
            self.write_num_unk(idx, prev_unk - 1);
            q_num.push_back(idx);
            proof {
                lemma_extends_chain(a, before, self.snapshot());
                assert(walls.take(i + 1) =~= walls.take(i as int).push(idx));
                assert(q_num@ =~= old(q_num)@ + walls.take(i + 1));
                assert forall|k: int| 0 <= k < l.num_adj.len() implies (
                #[trigger] self.snapshot().num_unk[k]) == a.num_unk[k] - one_when(
                    member(walls.take(i + 1), k),
                ) by {
                    assert(before.num_unk[k] == a.num_unk[k] - one_when(
                        member(walls.take(i as int), k),
                    ));
                    if k == idx {
                        assert(walls.take(i + 1)[i as int] == idx);
                    } else {
                        if member(walls.take(i as int), k) {
                            let j = choose|j: int|
                                0 <= j < walls.take(i as int).len() && #[trigger] walls.take(
                                    i as int,
                                )[j] == k;
                            assert(walls.take(i + 1)[j] == k);
                        }
                        if member(walls.take(i + 1), k) {
                            let j = choose|j: int|
                                0 <= j < walls.take(i + 1).len() && #[trigger] walls.take(i + 1)[j]
                                    == k;
                            assert(walls.take(i as int)[j] == k);
                        }
                    }
                }
            }
            i = i + 1;
        }
        proof {
            assert(walls.take(count as int) =~= walls);
            let b = self.snapshot();
            assert forall|k: int| 0 <= k < l.num_adj.len() implies (#[trigger] b.num_unk[k])
                == a.num_unk[k] - one_when(member(l.num_adj[k], cell as int)) by {
                assert(member(l.num_adj_of_empty[cell as int], k) <==> member(
                    l.num_adj[k],
                    cell as int,
                ));
            }
            lemma_blocked_sound(l, a, b, cell as int);
            assert(refines(a.cell_state, b.cell_state));
            assert forall|k: int|
                0 <= k < l.num_adj.len() && !member(l.num_adj[k], cell as int) implies #[trigger] wall_same(
                a,
                b,
                k,
            ) by {
                assert(b.num_unk[k] == a.num_unk[k] - one_when(member(l.num_adj[k], cell as int)));
            }
            lemma_advanced_walls(l, a, b, old(q_num)@, q_num@, cell as int);
            assert(queue_ok(q_num@, l)) by {
                assert forall|j: int| 0 <= j < q_num@.len() implies (#[trigger] q_num@[j])
                    < l.num_adj.len() by {
                    if j < old(q_num)@.len() {
                        assert(q_num@[j] == old(q_num)@[j]);
                    } else {
                        assert(q_num@[j] == walls[j - old(q_num)@.len()]);
                    }
                }
            }
        }
        true
    }

    /// Adds one to the lit count of every cell that the new light on `cell` reaches.
    pub(crate) fn raise_lit_counts(&mut self, cell: usize)
        requires
            old(self).shaped(),
            layout_ok(old(self).layout()),
            cell < old(self).n_empty,
            forall|x: int|
                0 <= x < old(self).layout().n ==> (#[trigger] old(self).snapshot().lit_count[x])
                    + one_when(member(old(self).layout().lit_list[cell as int], x)) == count_in(
                    old(self).layout().lit_list[x],
                    old(self).snapshot().cell_state,
                    CellState::Light,
                ),
        ensures
            final(self).layout() == old(self).layout(),
            final(self).shaped(),
            extends(old(self).snapshot(), final(self).snapshot()),
            final(self).snapshot() == (Snapshot {
                lit_count: final(self).snapshot().lit_count,
                trail: final(self).snapshot().trail,
                ..old(self).snapshot()
            }),
            forall|x: int|
                0 <= x < old(self).layout().n ==> (#[trigger] final(self).snapshot().lit_count[x])
                    == old(self).snapshot().lit_count[x] + one_when(
                    member(old(self).layout().lit_list[cell as int], x),
                ),
    {
        let ghost l = self.layout();
        let ghost a = self.snapshot();
        let ghost list = l.lit_list[cell as int];
        proof {
            lemma_extends_self(a);
        }
        let count = self.lit_list[cell].len();
        let mut i: usize = 0;
        while i < count
            invariant
                self.layout() == l,
                self.shaped(),
                layout_ok(l),
                cell < l.n,
                list == l.lit_list[cell as int],
                count == list.len(),
                0 <= i <= count,
                extends(a, self.snapshot()),
                self.snapshot() == (Snapshot {
                    lit_count: self.snapshot().lit_count,
                    trail: self.snapshot().trail,
                    ..a
                }),
                forall|x: int|
                    0 <= x < l.n ==> (#[trigger] a.lit_count[x]) + one_when(member(list, x))
                        == count_in(l.lit_list[x], a.cell_state, CellState::Light),
                forall|x: int|
                    0 <= x < l.n ==> (#[trigger] self.snapshot().lit_count[x]) == a.lit_count[x]
                        + one_when(member(list.take(i as int), x)),
            decreases count - i,
        {
            let ghost before = self.snapshot();
            let lit = self.lit_list[cell][i];
            assert(lit == list[i as int]);
            assert(lit < l.n);
            proof {
                lemma_take_fresh(list, i as int);
                assert(member(list, lit as int));
                lemma_count_in_bound(l.lit_list[lit as int], a.cell_state, CellState::Light);
                assert(l.lit_list[lit as int] == self.lit_list@[lit as int]@);
                assert(self.lit_list@[lit as int].len() <= usize::MAX);
                assert(a.lit_count[lit as int] + one_when(member(list, lit as int)) == count_in(
                    l.lit_list[lit as int],
                    a.cell_state,
                    CellState::Light,
                ));
                assert(before.lit_count[lit as int] == a.lit_count[lit as int] + one_when(
                    member(list.take(i as int), lit as int),
                ));
            }
            let prev = self.lit_count[lit];
            self.write_lit_count(lit, prev + 1);
            proof {
                lemma_extends_chain(a, before, self.snapshot());
                assert forall|x: int| 0 <= x < l.n implies (
                #[trigger] self.snapshot().lit_count[x]) == a.lit_count[x] + one_when(
                    member(list.take(i + 1), x),
                ) by {
                    assert(before.lit_count[x] == a.lit_count[x] + one_when(
                        member(list.take(i as int), x),
                    ));
                    lemma_take_member(list, i as int, x);
                }
            }
            i = i + 1;
        }
        proof {
            assert(list.take(count as int) =~= list);
        }
    }

    /// Brings the counters of the walls beside `cell` up to date after a
    /// light was put on it, and queues those walls.
    pub(crate) fn raise_wall_counts(&mut self, cell: usize, q_num: &mut VecDeque<usize>)
        requires
            old(self).shaped(),
            layout_ok(old(self).layout()),
            cell < old(self).n_empty,
            queue_ok(old(q_num)@, old(self).layout()),
            forall|k: int|
                0 <= k < old(self).layout().num_adj.len() ==> (
                #[trigger] old(self).snapshot().num_on[k]) + one_when(
                    member(old(self).layout().num_adj[k], cell as int),
                ) == count_in(
                    old(self).layout().num_adj[k],
                    old(self).snapshot().cell_state,
                    CellState::Light,
                ),
            forall|k: int|
                0 <= k < old(self).layout().num_adj.len() ==> (
                #[trigger] old(self).snapshot().num_unk[k]) - one_when(
                    member(old(self).layout().num_adj[k], cell as int),
                ) == count_in(
                    old(self).layout().num_adj[k],
                    old(self).snapshot().cell_state,
                    CellState::Unknown,
                ),
        ensures
            final(self).layout() == old(self).layout(),
            final(self).shaped(),
            extends(old(self).snapshot(), final(self).snapshot()),
            queue_ok(final(q_num)@, final(self).layout()),
            final(q_num)@ == old(q_num)@ + old(self).layout().num_adj_of_empty[cell as int],
            final(self).snapshot() == (Snapshot {
                num_on: final(self).snapshot().num_on,
                num_unk: final(self).snapshot().num_unk,
                trail: final(self).snapshot().trail,
                ..old(self).snapshot()
            }),
            forall|k: int|
                0 <= k < old(self).layout().num_adj.len() ==> (
                #[trigger] final(self).snapshot().num_on[k]) == old(self).snapshot().num_on[k]
                    + one_when(member(old(self).layout().num_adj[k], cell as int)),
            forall|k: int|
                0 <= k < old(self).layout().num_adj.len() ==> (
                #[trigger] final(self).snapshot().num_unk[k]) == old(self).snapshot().num_unk[k]
                    - one_when(member(old(self).layout().num_adj[k], cell as int)),
    {
        let ghost l = self.layout();
        let ghost a = self.snapshot();
        let ghost walls = l.num_adj_of_empty[cell as int];
        proof {
            lemma_extends_self(a);
        }
        let count = self.num_adj_of_empty[cell].len();
        let mut i: usize = 0;
        while i < count
            invariant
                self.layout() == l,
                self.shaped(),
                layout_ok(l),
                cell < l.n,
                walls == l.num_adj_of_empty[cell as int],
                count == walls.len(),
                0 <= i <= count,
                extends(a, self.snapshot()),
                self.snapshot() == (Snapshot {
                    num_on: self.snapshot().num_on,
                    num_unk: self.snapshot().num_unk,
                    trail: self.snapshot().trail,
                    ..a
                }),
                forall|k: int|
                    0 <= k < l.num_adj.len() ==> (#[trigger] a.num_on[k]) + one_when(
                        member(l.num_adj[k], cell as int),
                    ) == count_in(l.num_adj[k], a.cell_state, CellState::Light),
                forall|k: int|
                    0 <= k < l.num_adj.len() ==> (#[trigger] a.num_unk[k]) - one_when(
                        member(l.num_adj[k], cell as int),
                    ) == count_in(l.num_adj[k], a.cell_state, CellState::Unknown),
                forall|k: int|
                    0 <= k < l.num_adj.len() ==> (#[trigger] self.snapshot().num_on[k])
                        == a.num_on[k] + one_when(member(walls.take(i as int), k)),
                forall|k: int|
                    0 <= k < l.num_adj.len() ==> (#[trigger] self.snapshot().num_unk[k])
                        == a.num_unk[k] - one_when(member(walls.take(i as int), k)),
                q_num@ == old(q_num)@ + walls.take(i as int),
                queue_ok(old(q_num)@, l),
            decreases count - i,
        {
            let ghost before = self.snapshot();
            let idx = self.num_adj_of_empty[cell][i];
            assert(idx == walls[i as int]);
            assert(idx < l.num_adj.len());
            proof {
                lemma_take_fresh(walls, i as int);
                assert(member(walls, idx as int));
                assert(member(l.num_adj_of_empty[cell as int], idx as int) <==> member(
                    l.num_adj[idx as int],
                    cell as int,
                ));
                lemma_count_in_bound(l.num_adj[idx as int], a.cell_state, CellState::Light);
                assert(a.num_on[idx as int] + one_when(member(l.num_adj[idx as int], cell as int))
                    == count_in(l.num_adj[idx as int], a.cell_state, CellState::Light));
                assert(a.num_unk[idx as int] - one_when(member(l.num_adj[idx as int], cell as int))
                    == count_in(l.num_adj[idx as int], a.cell_state, CellState::Unknown));
                assert(before.num_on[idx as int] == a.num_on[idx as int] + one_when(
                    member(walls.take(i as int), idx as int),
                ));
                assert(before.num_unk[idx as int] == a.num_unk[idx as int] - one_when(
                    member(walls.take(i as int), idx as int),
                ));
            }
            let prev_on = self.num_cells[idx].on;
            self.write_num_on(idx, prev_on + 1);
            let ghost mid = self.snapshot();
            let prev_unk = self.num_cells[idx].unk;
            self.write_num_unk(idx, prev_unk - 1);
            q_num.push_back(idx);
            proof {
                lemma_extends_chain(a, before, mid);
                lemma_extends_chain(a, mid, self.snapshot());
                assert(walls.take(i + 1) =~= walls.take(i as int).push(idx));
                assert(q_num@ =~= old(q_num)@ + walls.take(i + 1));
                assert forall|k: int| 0 <= k < l.num_adj.len() implies (
                #[trigger] self.snapshot().num_on[k]) == a.num_on[k] + one_when(
                    member(walls.take(i + 1), k),
                ) by {
                    assert(before.num_on[k] == a.num_on[k] + one_when(
                        member(walls.take(i as int), k),
                    ));
                    lemma_take_member(walls, i as int, k);
                }
                assert forall|k: int| 0 <= k < l.num_adj.len() implies (
                #[trigger] self.snapshot().num_unk[k]) == a.num_unk[k] - one_when(
                    member(walls.take(i + 1), k),
                ) by {
                    assert(before.num_unk[k] == a.num_unk[k] - one_when(
                        member(walls.take(i as int), k),
                    ));
                    lemma_take_member(walls, i as int, k);
                }
            }
            i = i + 1;
        }
        proof {
            assert(walls.take(count as int) =~= walls);
            assert forall|k: int| 0 <= k < l.num_adj.len() implies (
            #[trigger] self.snapshot().num_on[k]) == a.num_on[k] + one_when(
                member(l.num_adj[k], cell as int),
            ) by {
                assert(member(l.num_adj_of_empty[cell as int], k) <==> member(
                    l.num_adj[k],
                    cell as int,
                ));
            }
            assert forall|k: int| 0 <= k < l.num_adj.len() implies (
            #[trigger] self.snapshot().num_unk[k]) == a.num_unk[k] - one_when(
                member(l.num_adj[k], cell as int),
            ) by {
                assert(member(l.num_adj_of_empty[cell as int], k) <==> member(
                    l.num_adj[k],
                    cell as int,
                ));
            }
            assert(queue_ok(q_num@, l)) by {
                assert forall|j: int| 0 <= j < q_num@.len() implies (#[trigger] q_num@[j])
                    < l.num_adj.len() by {
                    if j < old(q_num)@.len() {
                        assert(q_num@[j] == old(q_num)@[j]);
                    } else {
                        assert(q_num@[j] == walls[j - old(q_num)@.len()]);
                    }
                }
            }
        }
    }

    /// Blocks every cell but `cell` in the row segment of `cell` (in its
    /// column segment where `by_row` is false). Stops with `false` at a
    /// cell that holds a light.
    pub(crate) fn block_others(&mut self, cell: usize, by_row: bool, q_num: &mut VecDeque<usize>) -> (ok: bool)
        requires
            old(self).wf(),
            cell < old(self).n_empty,
            queue_ok(old(q_num)@, old(self).layout()),
        ensures
            final(self).layout() == old(self).layout(),
            final(self).wf(),
            extends(old(self).snapshot(), final(self).snapshot()),
            queue_ok(final(q_num)@, final(self).layout()),
            final(self).snapshot().row_light == old(self).snapshot().row_light,
            final(self).snapshot().col_light == old(self).snapshot().col_light,
            advanced(
                old(self).layout(),
                old(self).snapshot(),
                final(self).snapshot(),
                old(q_num)@,
                final(q_num)@,
            ),
            forall|x: int|
                0 <= x < old(self).layout().n ==> ((#[trigger] final(self).snapshot().cell_state[x])
                    == old(self).snapshot().cell_state[x] || (old(self).snapshot().cell_state[x]
                    == CellState::Unknown && final(self).snapshot().cell_state[x]
                    == CellState::Blocked)),
            ok <==> forall|y: int|
                0 <= y < old(self).layout().n && y != cell && in_segment_of(
                    old(self).layout(),
                    by_row,
                    y,
                    cell as int,
                ) ==> (#[trigger] old(self).snapshot().cell_state[y]) != CellState::Light,
            ok ==> final(self).snapshot().cell_state == others_blocked(
                old(self).layout(),
                old(self).snapshot().cell_state,
                by_row,
                cell as int,
            ),
    {
        let ghost l = self.layout();
        let ghost a = self.snapshot();
        let seg = if by_row {
            self.row_seg_id[cell]
        } else {
            self.col_seg_id[cell]
        };
        let ghost cells = if by_row {
            l.row_cells[seg as int]
        } else {
            l.col_cells[seg as int]
        };
        let count = if by_row {
            self.row_segs[seg].cells.len()
        } else {
            self.col_segs[seg].cells.len()
        };
        proof {
            lemma_extends_self(a);
            lemma_advanced_self(l, a, q_num@);
            assert forall|x: int| 0 <= x < l.n implies (member(cells, x) <==> in_segment_of(
                l,
                by_row,
                x,
                cell as int,
            )) by {
                if by_row {
                    assert(member(l.row_cells[seg as int], x) <==> l.row_seg_id[x] == seg);
                } else {
                    assert(member(l.col_cells[seg as int], x) <==> l.col_seg_id[x] == seg);
                }
            }
        }
        let mut j: usize = 0;
        while j < count
            invariant
                self.layout() == l,
                l == old(self).layout(),
                a == old(self).snapshot(),
                self.wf(),
                sound(l, a),
                cell < l.n,
                seg == (if by_row {
                    l.row_seg_id[cell as int]
                } else {
                    l.col_seg_id[cell as int]
                }),
                cells == (if by_row {
                    l.row_cells[seg as int]
                } else {
                    l.col_cells[seg as int]
                }),
                below(cells, l.n),
                count == cells.len(),
                0 <= j <= count,
                extends(a, self.snapshot()),
                queue_ok(q_num@, l),
                advanced(l, a, self.snapshot(), old(q_num)@, q_num@),
                self.snapshot().row_light == a.row_light,
                self.snapshot().col_light == a.col_light,
                forall|x: int|
                    0 <= x < l.n ==> (member(cells, x) <==> in_segment_of(l, by_row, x, cell as int)),
                forall|p: int|
                    0 <= p < j && cells[p] != cell ==> a.cell_state[(#[trigger] cells[p]) as int]
                        != CellState::Light,
                forall|x: int|
                    0 <= x < l.n ==> (#[trigger] self.snapshot().cell_state[x]) == (if x != cell
                        && member(cells.take(j as int), x) {
                        CellState::Blocked
                    } else {
                        a.cell_state[x]
                    }),
                forall|x: int|
                    0 <= x < l.n ==> ((#[trigger] self.snapshot().cell_state[x]) == a.cell_state[x]
                        || (a.cell_state[x] == CellState::Unknown && self.snapshot().cell_state[x]
                        == CellState::Blocked)),
            decreases count - j,
        {
            let other = if by_row {
                self.row_segs[seg].cells[j]
            } else {
                self.col_segs[seg].cells[j]
            };
            assert(other == cells[j as int]);
            assert(other < l.n);
            let ghost before = self.snapshot();
            let ghost queued = q_num@;
            if other != cell {
                proof {
                    assert(before.cell_state[other as int] == (if member(
                        cells.take(j as int),
                        other as int,
                    ) {
                        CellState::Blocked
                    } else {
                        a.cell_state[other as int]
                    }));
                }
                if !self.set_blocked(other, q_num) {
                    proof {
                        lemma_advanced_chain(
                            l,
                            a,
                            before,
                            self.snapshot(),
                            old(q_num)@,
                            queued,
                            q_num@,
                        );
                        lemma_extends_chain(a, before, self.snapshot());
                        assert(before.cell_state[other as int] == CellState::Light);
                        assert(a.cell_state[other as int] == CellState::Light);
                        assert(member(cells, other as int));
                        assert(in_segment_of(l, by_row, other as int, cell as int));
                    }
                    return false;
                }
                proof {
                    lemma_advanced_chain(
                        l,
                        a,
                        before,
                        self.snapshot(),
                        old(q_num)@,
                        queued,
                        q_num@,
                    );
                    lemma_extends_chain(a, before, self.snapshot());
                    assert(self.snapshot().cell_state =~= before.cell_state.update(
                        other as int,
                        CellState::Blocked,
                    ));
                }
            }
            proof {
                assert forall|x: int| 0 <= x < l.n implies (
                #[trigger] self.snapshot().cell_state[x]) == (if x != cell && member(
                    cells.take(j + 1),
                    x,
                ) {
                    CellState::Blocked
                } else {
                    a.cell_state[x]
                }) by {
                    lemma_take_member(cells, j as int, x);
                    assert(before.cell_state[x] == (if x != cell && member(
                        cells.take(j as int),
                        x,
                    ) {
                        CellState::Blocked
                    } else {
                        a.cell_state[x]
                    }));
                }
            }
            j = j + 1;
        }
        proof {
            assert(cells.take(count as int) =~= cells);
            assert(self.snapshot().cell_state =~= others_blocked(
                l,
                a.cell_state,
                by_row,
                cell as int,
            ));
            assert forall|y: int|
                0 <= y < l.n && y != cell && in_segment_of(
                    l,
                    by_row,
                    y,
                    cell as int,
                ) implies (#[trigger] a.cell_state[y]) != CellState::Light by {
                assert(member(cells, y));
                let p = choose|p: int| 0 <= p < cells.len() && #[trigger] cells[p] == y;
                assert(a.cell_state[cells[p] as int] != CellState::Light);
            }
        }
        true
    }

    /// Puts a light on `cell`. On an unknown cell the cell becomes a light,
    /// every cell that the light reaches has its lit count raised, every
    /// wall beside the cell counts one more light and one unknown
    /// neighbour less and is queued, and the cell becomes the light of its
    /// two segments, whose other cells are blocked. The answer is `false`
    /// where a segment has a light already or another cell of it holds
    /// one; the state is then left part-way and is to be undone. A cell
    /// that holds a light stays as it is; on a blocked cell the answer is
    /// `false` and nothing changes.
    pub fn set_light(&mut self, cell: usize, q_num: &mut VecDeque<usize>) -> (ok: bool)
        requires
            old(self).wf(),
            cell < old(self).n_empty,
            queue_ok(old(q_num)@, old(self).layout()),
        ensures
            final(self).layout() == old(self).layout(),
            final(self).wf(),
            extends(old(self).snapshot(), final(self).snapshot()),
            queue_ok(final(q_num)@, final(self).layout()),
            advanced(
                old(self).layout(),
                old(self).snapshot(),
                final(self).snapshot(),
                old(q_num)@,
                final(q_num)@,
            ),
            forall|x: int|
                0 <= x < old(self).layout().n ==> ((#[trigger] final(self).snapshot().cell_state[x])
                    == CellState::Unknown ==> old(self).snapshot().cell_state[x]
                    == CellState::Unknown),
            old(self).snapshot().cell_state[cell as int] == CellState::Unknown ==> forall|k: int| #[trigger]
                member(old(self).layout().num_adj_of_empty[cell as int], k) ==> member(
                    final(q_num)@,
                    k,
                ),
            match old(self).snapshot().cell_state[cell as int] {
                CellState::Light => ok && final(self).snapshot() == old(self).snapshot()
                    && final(q_num)@ == old(q_num)@,
                CellState::Blocked => !ok && final(self).snapshot() == old(self).snapshot()
                    && final(q_num)@ == old(q_num)@,
                CellState::Unknown => {
                    &&& ok <==> can_light(old(self).layout(), old(self).snapshot(), cell as int)
                    &&& final(self).unknowns() < old(self).unknowns()
                    &&& ok ==> {
                        &&& final(self).snapshot().cell_state == lit_state(
                            old(self).layout(),
                            old(self).snapshot().cell_state,
                            cell as int,
                        )
                        &&& final(self).snapshot().row_light
                            == old(self).snapshot().row_light.update(
                            old(self).layout().row_seg_id[cell as int] as int,
                            Some(cell),
                        )
                        &&& final(self).snapshot().col_light
                            == old(self).snapshot().col_light.update(
                            old(self).layout().col_seg_id[cell as int] as int,
                            Some(cell),
                        )
                    }
                    &&& old(self).settled() ==> ok && final(self).settled()
                },
            },
    {
        let ghost l = self.layout();
        let ghost a = self.snapshot();
        let ghost q0 = q_num@;
        proof {
            lemma_extends_self(a);
            lemma_advanced_self(l, a, q0);
        }
        match self.cell_state[cell] {
            CellState::Light => {
                return true;
            },
            CellState::Blocked => {
                return false;
            },
            CellState::Unknown => {},
        }
        proof {
            if tidy(l, a) {
                lemma_settled_can_light(l, a, cell as int);
            }
        }
        self.write_state(cell, CellState::Light);
        let ghost s1 = self.snapshot();
        let ghost st1 = s1.cell_state;
        proof {
            assert forall|x: int| 0 <= x < l.n implies (#[trigger] s1.lit_count[x]) + one_when(
                member(l.lit_list[cell as int], x),
            ) == count_in(l.lit_list[x], st1, CellState::Light) by {
                lemma_count_in_update(
                    l.lit_list[x],
                    a.cell_state,
                    cell as int,
                    CellState::Light,
                    CellState::Light,
                );
                assert(a.lit_count[x] == count_in(l.lit_list[x], a.cell_state, CellState::Light));
                assert(member(l.lit_list[x], cell as int) <==> same_segment(l, cell as int, x));
                assert(member(l.lit_list[cell as int], x) <==> same_segment(l, x, cell as int));
            }
        }
        self.raise_lit_counts(cell);
        let ghost s2 = self.snapshot();
        proof {
            lemma_extends_chain(a, s1, s2);
            assert forall|k: int| 0 <= k < l.num_adj.len() implies (#[trigger] s2.num_on[k])
                + one_when(member(l.num_adj[k], cell as int)) == count_in(
                l.num_adj[k],
                s2.cell_state,
                CellState::Light,
            ) by {
                lemma_count_in_update(
                    l.num_adj[k],
                    a.cell_state,
                    cell as int,
                    CellState::Light,
                    CellState::Light,
                );
                assert(a.num_on[k] == count_in(l.num_adj[k], a.cell_state, CellState::Light));
            }
            assert forall|k: int| 0 <= k < l.num_adj.len() implies (#[trigger] s2.num_unk[k])
                - one_when(member(l.num_adj[k], cell as int)) == count_in(
                l.num_adj[k],
                s2.cell_state,
                CellState::Unknown,
            ) by {
                lemma_count_in_update(
                    l.num_adj[k],
                    a.cell_state,
                    cell as int,
                    CellState::Light,
                    CellState::Unknown,
                );
                assert(a.num_unk[k] == count_in(l.num_adj[k], a.cell_state, CellState::Unknown));
            }
        }
        self.raise_wall_counts(cell, q_num);
        let ghost s3 = self.snapshot();
        let ghost q3 = q_num@;
        proof {
            lemma_extends_chain(a, s2, s3);
            lemma_lit_sound(l, a, s3, cell as int);
            lemma_count_all_update(a.cell_state, cell as int, CellState::Light, CellState::Unknown);
            lemma_unknowns_drop(a.cell_state, s3.cell_state, cell as int);
            assert(refines(a.cell_state, s3.cell_state));
            assert forall|k: int|
                0 <= k < l.num_adj.len() && !member(l.num_adj[k], cell as int) implies #[trigger] wall_same(
                a,
                s3,
                k,
            ) by {
                assert(s3.num_on[k] == s2.num_on[k] + one_when(member(l.num_adj[k], cell as int)));
                assert(s3.num_unk[k] == s2.num_unk[k] - one_when(
                    member(l.num_adj[k], cell as int),
                ));
            }
            lemma_advanced_walls(l, a, s3, q0, q3, cell as int);
        }

        let rseg = self.row_seg_id[cell];
        match self.row_segs[rseg].light {
            Some(prev) => {
                if prev != cell {
                    return false;
                }
                proof {
                    assert(a.row_light[rseg as int] == Some(cell));
                    assert(a.cell_state[cell as int] == CellState::Light);
                }
            },
            None => {
                self.write_row_light(rseg, Some(cell));
                let ghost s4 = self.snapshot();
                proof {
                    lemma_extends_chain(a, s3, s4);
                    lemma_named_sound(l, s3, s4, cell as int, true);
                    lemma_advanced_same(l, a, s3, s4, q0, q3);
                }
                let done = self.block_others(cell, true, q_num);
                proof {
                    lemma_advanced_chain(l, a, s4, self.snapshot(), q0, q3, q_num@);
                    lemma_extends_chain(a, s4, self.snapshot());
                    lemma_unknowns_chain(a.cell_state, s3.cell_state, self.snapshot().cell_state);
                    lemma_unknowns_drop(a.cell_state, self.snapshot().cell_state, cell as int);
                }
                if !done {
                    proof {
                        let y = choose|y: int|
                            0 <= y < l.n && y != cell && in_segment_of(l, true, y, cell as int) && (
                            #[trigger] s4.cell_state[y]) == CellState::Light;
                        assert(a.cell_state[y] == CellState::Light);
                        assert(same_segment(l, y, cell as int));
                    }
                    return false;
                }
            },
        }
        let ghost s5 = self.snapshot();
        let ghost q5 = q_num@;
        proof {
            assert(s5.cell_state == others_blocked(l, st1, true, cell as int));
            assert(s5.col_light == a.col_light);
            assert(advanced(l, a, s5, q0, q5));
        }

        let cseg = self.col_seg_id[cell];
        match self.col_segs[cseg].light {
            Some(prev) => {
                if prev != cell {
                    return false;
                }
                proof {
                    assert(a.col_light[cseg as int] == Some(cell));
                    assert(a.cell_state[cell as int] == CellState::Light);
                }
            },
            None => {
                self.write_col_light(cseg, Some(cell));
                let ghost s6 = self.snapshot();
                proof {
                    lemma_extends_chain(a, s5, s6);
                    lemma_named_sound(l, s5, s6, cell as int, false);
                    lemma_advanced_same(l, a, s5, s6, q0, q5);
                }
                let done = self.block_others(cell, false, q_num);
                proof {
                    lemma_advanced_chain(l, a, s6, self.snapshot(), q0, q5, q_num@);
                    lemma_extends_chain(a, s6, self.snapshot());
                    lemma_unknowns_chain(a.cell_state, s5.cell_state, self.snapshot().cell_state);
                    lemma_unknowns_drop(a.cell_state, self.snapshot().cell_state, cell as int);
                }
                if !done {
                    proof {
                        let y = choose|y: int|
                            0 <= y < l.n && y != cell && in_segment_of(l, false, y, cell as int)
                                && (#[trigger] s6.cell_state[y]) == CellState::Light;
                        assert(a.cell_state[y] == CellState::Light);
                        assert(same_segment(l, y, cell as int));
                    }
                    return false;
                }
            },
        }
        proof {
            let b = self.snapshot();
            assert(b.cell_state =~= lit_state(l, a.cell_state, cell as int));
            assert(can_light(l, a, cell as int)) by {
                assert forall|y: int|
                    0 <= y < l.n && y != cell && same_segment(l, y, cell as int) implies (
                #[trigger] a.cell_state[y]) != CellState::Light by {
                    if l.row_seg_id[y] == l.row_seg_id[cell as int] {
                        assert(in_segment_of(l, true, y, cell as int));
                        assert(s3.cell_state[y] != CellState::Light);
                    } else {
                        assert(in_segment_of(l, false, y, cell as int));
                        assert(s5.cell_state[y] != CellState::Light);
                    }
                }
            }
            if tidy(l, a) {
                lemma_lit_settled(l, a, b, cell as int);
            }
        }
        true
    }
}

} // verus!
