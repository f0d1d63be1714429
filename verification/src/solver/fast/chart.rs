//! The fixed part of the state: how it is built from a field, and in
//! what sense it describes the field.

use vstd::prelude::*;
use crate::field::{Board, Field};
use crate::solver::lit;
use crate::utility::{direction, moved, ADJ, GridUtility};
use crate::solver::fast::{
    below, count_in, counts_ok, layout_ok, lemma_count_fresh, lemma_push_member, lemma_pushed,
    lemma_take_member, lights_ok, member, no_dups, CellState, Core, Layout, NumCell, Segment,
};

verus! {

/// The numbering of the empty cells: `pos` lists their places, `ids` gives
/// for every place of the board the number of the empty cell there.
pub open spec fn numbered(pos: Seq<(usize, usize)>, ids: Seq<Vec<Option<usize>>>, board: Board) -> bool {
    &&& ids.len() == board.h
    &&& forall|r: int| 0 <= r < board.h ==> (#[trigger] ids[r])@.len() == board.w
    &&& forall|x: int|
        0 <= x < pos.len() ==> board.open_at((#[trigger] pos[x]).0 as int, pos[x].1 as int)
            && ids[pos[x].0 as int]@[pos[x].1 as int] == Some(x as usize)
    &&& forall|r: int, c: int|
        board.inside(r, c) ==> match #[trigger] ids[r]@[c] {
            Some(x) => x < pos.len() && pos[x as int] == (r as usize, c as usize) && board.open_at(
                r,
                c,
            ),
            None => !board.open_at(r, c),
        }
}

/// The place `b` steps along line `a`: line `a` is a row where `by_row`
/// holds and a column where it does not.
pub open spec fn place(by_row: bool, a: int, b: int) -> (int, int) {
    if by_row {
        (a, b)
    } else {
        (b, a)
    }
}

/// The cells `cells` are, in order, the cells from `b0` on in line `a`.
pub open spec fn is_run(pos: Seq<(usize, usize)>, cells: Seq<usize>, by_row: bool, a: int, b0: int) -> bool {
    forall|j: int|
        0 <= j < cells.len() ==> (#[trigger] cells[j]) < pos.len() && (
        pos[cells[j] as int].0 as int,
        pos[cells[j] as int].1 as int,
    ) == place(by_row, a, b0 + j)
}

/// The cells `cells` are, in order, cells that follow each other in one line.
pub open spec fn has_run(pos: Seq<(usize, usize)>, cells: Seq<usize>, by_row: bool) -> bool {
    exists|a: int, b0: int| is_run(pos, cells, by_row, a, b0)
}

/// `y` is the cell next after `x` in its line.
pub open spec fn next_along(pos: Seq<(usize, usize)>, by_row: bool, x: int, y: int) -> bool {
    if by_row {
        pos[x].0 == pos[y].0 && pos[x].1 + 1 == pos[y].1
    } else {
        pos[x].1 == pos[y].1 && pos[x].0 + 1 == pos[y].0
    }
}

/// The segments along one direction, as cut from the board: every cell
/// belongs to the segment whose number it carries and to no other, every
/// segment is a run of cells in one line, and cells next to each other in
/// a line are in one segment.
pub open spec fn cut_ok(
    pos: Seq<(usize, usize)>,
    seg_id: Seq<usize>,
    cells: Seq<Seq<usize>>,
    by_row: bool,
) -> bool {
    &&& seg_id.len() == pos.len()
    &&& forall|x: int| 0 <= x < pos.len() ==> (#[trigger] seg_id[x]) < cells.len()
    &&& forall|g: int| 0 <= g < cells.len() ==> below(#[trigger] cells[g], pos.len()) && no_dups(cells[g])
    &&& forall|g: int, x: int|
        0 <= g < cells.len() && 0 <= x < pos.len() ==> (#[trigger] member(cells[g], x) <==> seg_id[x]
            == g)
    &&& forall|g: int| 0 <= g < cells.len() ==> has_run(pos, #[trigger] cells[g], by_row)
    &&& forall|x: int, y: int|
        0 <= x < pos.len() && 0 <= y < pos.len() && #[trigger] next_along(pos, by_row, x, y)
            ==> seg_id[x] == seg_id[y]
}

/// The line of a place and how far along the line it lies.
pub open spec fn coords(by_row: bool, p: (usize, usize)) -> (int, int) {
    if by_row {
        (p.0 as int, p.1 as int)
    } else {
        (p.1 as int, p.0 as int)
    }
}

/// The place lies before step `b` of line `a` in the order in which the lines are walked.
pub open spec fn walked(by_row: bool, p: (usize, usize), a: int, b: int) -> bool {
    coords(by_row, p).0 < a || (coords(by_row, p).0 == a && coords(by_row, p).1 < b)
}

/// The place `p` comes before the place `q` in the order in which the lines are walked.
pub open spec fn starts_before(by_row: bool, p: (usize, usize), q: (usize, usize)) -> bool {
    walked(by_row, p, coords(by_row, q).0, coords(by_row, q).1)
}

/// The segments are numbered as the walk along the lines meets them: none
/// is empty, and each starts before the next.
pub open spec fn segs_in_order(pos: Seq<(usize, usize)>, cells: Seq<Seq<usize>>, by_row: bool) -> bool {
    &&& forall|g: int| 0 <= g < cells.len() ==> (#[trigger] cells[g]).len() > 0
    &&& forall|g: int, g2: int|
        0 <= g < g2 < cells.len() ==> starts_before(
            by_row,
            pos[(#[trigger] cells[g])[0] as int],
            pos[(#[trigger] cells[g2])[0] as int],
        )
}

/// The cell lists of the segments.
pub open spec fn cells_of(segs: Seq<Segment>) -> Seq<Seq<usize>> {
    Seq::new(segs.len(), |g: int| segs[g].cells@)
}

/// What holds of the segments cut so far, when the walk stands at step `b`
/// of line `a` and, where `run` is given, has gathered the cells from
/// `run.0` to `b` into the list `run.1` that will be the next segment.
pub open spec fn cut_so_far(
    pos: Seq<(usize, usize)>,
    seg_id: Seq<usize>,
    cells: Seq<Seq<usize>>,
    by_row: bool,
    a: int,
    b: int,
    run: Option<(int, Seq<usize>)>,
) -> bool {
    &&& seg_id.len() == pos.len()
    &&& forall|g: int|
        0 <= g < cells.len() ==> below(#[trigger] cells[g], pos.len()) && no_dups(cells[g])
            && has_run(pos, cells[g], by_row)
    &&& forall|g: int, j: int|
        0 <= g < cells.len() && 0 <= j < cells[g].len() ==> seg_id[(#[trigger] cells[g][j]) as int]
            == g && walked(by_row, pos[cells[g][j] as int], a, b)
    &&& forall|x: int|
        0 <= x < pos.len() && walked(by_row, #[trigger] pos[x], a, b) ==> (if seg_id[x]
            < cells.len() {
            member(cells[seg_id[x] as int], x)
        } else {
            run matches Some((b0, list)) && seg_id[x] == cells.len() && member(list, x)
        })
    &&& forall|x: int, y: int|
        0 <= x < pos.len() && 0 <= y < pos.len() && #[trigger] next_along(pos, by_row, x, y)
            && walked(by_row, pos[y], a, b) ==> seg_id[x] == seg_id[y]
    &&& match run {
        Some((b0, list)) => {
            &&& 0 <= b0 <= b
            &&& list.len() == b - b0
            &&& is_run(pos, list, by_row, a, b0)
            &&& forall|j: int| 0 <= j < list.len() ==> seg_id[(#[trigger] list[j]) as int] == cells.len()
            &&& forall|x: int|
                0 <= x < pos.len() && coords(by_row, #[trigger] pos[x]) == (a, b0 - 1) ==> false
        },
        None => forall|x: int, y: int|
            0 <= x < pos.len() && 0 <= y < pos.len() && coords(by_row, #[trigger] pos[x]) == (
                a,
                b - 1,
            ) && coords(by_row, #[trigger] pos[y]) == (a, b) ==> false,
    }
}

/// The cells of a run are all different.
pub proof fn lemma_run_no_dups(
    pos: Seq<(usize, usize)>,
    cells: Seq<usize>,
    by_row: bool,
    a: int,
    b0: int,
)
    requires
        is_run(pos, cells, by_row, a, b0),
    ensures
        no_dups(cells),
        below(cells, pos.len()),
{
    assert forall|i: int, j: int| 0 <= i < j < cells.len() implies #[trigger] cells[i]
        != #[trigger] cells[j] by {
        assert(place(by_row, a, b0 + i) != place(by_row, a, b0 + j));
    }
}

/// At an empty cell a run can start.
pub proof fn lemma_run_starts(
    pos: Seq<(usize, usize)>,
    seg_id: Seq<usize>,
    cells: Seq<Seq<usize>>,
    by_row: bool,
    a: int,
    b: int,
    id: int,
)
    requires
        cut_so_far(pos, seg_id, cells, by_row, a, b, None),
        0 <= id < pos.len(),
        coords(by_row, pos[id]) == (a, b),
        b >= 0,
    ensures
        cut_so_far(pos, seg_id, cells, by_row, a, b, Some((b, Seq::<usize>::empty()))),
{
    assert forall|x: int|
        0 <= x < pos.len() && coords(by_row, #[trigger] pos[x]) == (a, b - 1) implies false by {
        assert(coords(by_row, pos[id]) == (a, b));
    }
}

/// Taking one more empty cell into the run keeps what holds of the cut.
pub proof fn lemma_run_grows(
    pos: Seq<(usize, usize)>,
    seg_id: Seq<usize>,
    cells: Seq<Seq<usize>>,
    by_row: bool,
    a: int,
    b: int,
    b0: int,
    list: Seq<usize>,
    id: int,
)
    requires
        cut_so_far(pos, seg_id, cells, by_row, a, b, Some((b0, list))),
        0 <= id < pos.len(),
        coords(by_row, pos[id]) == (a, b),
        forall|x: int, y: int|
            0 <= x < pos.len() && 0 <= y < pos.len() && pos[x] == pos[y] ==> x == y,
        cells.len() <= usize::MAX,
        pos.len() <= usize::MAX,
    ensures
        cut_so_far(
            pos,
            seg_id.update(id, cells.len() as usize),
            cells,
            by_row,
            a,
            b + 1,
            Some((b0, list.push(id as usize))),
        ),
{
    let seg2 = seg_id.update(id, cells.len() as usize);
    let list2 = list.push(id as usize);
    assert(!walked(by_row, pos[id], a, b));
    assert forall|g: int, j: int| 0 <= g < cells.len() && 0 <= j < cells[g].len() implies seg2[(
    #[trigger] cells[g][j]) as int] == g && walked(by_row, pos[cells[g][j] as int], a, b + 1) by {
        assert(seg_id[cells[g][j] as int] == g && walked(by_row, pos[cells[g][j] as int], a, b));
        assert(cells[g][j] != id);
    }
    assert(is_run(pos, list2, by_row, a, b0)) by {
        assert forall|j: int| 0 <= j < list2.len() implies (#[trigger] list2[j]) < pos.len() && (
            pos[list2[j] as int].0 as int,
            pos[list2[j] as int].1 as int,
        ) == place(by_row, a, b0 + j) by {
            if j < list.len() {
                assert(list2[j] == list[j]);
            }
        }
    }
    assert forall|j: int| 0 <= j < list2.len() implies seg2[(#[trigger] list2[j]) as int]
        == cells.len() by {
        if j < list.len() {
            assert(list2[j] == list[j]);
        }
    }
    assert forall|x: int|
        0 <= x < pos.len() && walked(by_row, #[trigger] pos[x], a, b + 1) implies (if seg2[x]
        < cells.len() {
        member(cells[seg2[x] as int], x)
    } else {
        seg2[x] == cells.len() && member(list2, x)
    }) by {
        if x == id {
            assert(list2[list.len() as int] == id);
        } else {
            assert(walked(by_row, pos[x], a, b)) by {
                if coords(by_row, pos[x]) == (a, b) {
                    assert(pos[x] == pos[id]);
                }
            }
            if seg_id[x] >= cells.len() {
                let j = choose|j: int| 0 <= j < list.len() && #[trigger] list[j] == x;
                assert(list2[j] == x);
            }
        }
    }
    assert forall|x: int, y: int|
        0 <= x < pos.len() && 0 <= y < pos.len() && #[trigger] next_along(pos, by_row, x, y)
            && walked(by_row, pos[y], a, b + 1) implies seg2[x] == seg2[y] by {
        if y == id {
            // x lies just before the new cell: it is the last of the run
            assert(coords(by_row, pos[x]) == (a, b - 1));
            if b == b0 {
                assert(false);
            } else {
                let last = list[list.len() - 1] as int;
                assert(coords(by_row, pos[last]) == (a, b - 1)) by {
                    assert(place(by_row, a, b0 + (list.len() - 1)) == place(by_row, a, b - 1));
                }
                assert(pos[last] == pos[x]);
                assert(seg_id[list[list.len() - 1] as int] == cells.len());
            }
        } else {
            assert(walked(by_row, pos[y], a, b)) by {
                if coords(by_row, pos[y]) == (a, b) {
                    assert(pos[y] == pos[id]);
                }
            }
            assert(walked(by_row, pos[x], a, b));
            assert(x != id);
        }
    }
}

/// A run that has ended becomes one more segment.
pub proof fn lemma_run_closes(
    pos: Seq<(usize, usize)>,
    seg_id: Seq<usize>,
    cells: Seq<Seq<usize>>,
    by_row: bool,
    a: int,
    b: int,
    b0: int,
    list: Seq<usize>,
)
    requires
        cut_so_far(pos, seg_id, cells, by_row, a, b, Some((b0, list))),
        b > b0,
        forall|x: int| 0 <= x < pos.len() ==> coords(by_row, #[trigger] pos[x]) != (a, b),
    ensures
        cut_so_far(pos, seg_id, cells.push(list), by_row, a, b, None),
{
    let cells2 = cells.push(list);
    lemma_run_no_dups(pos, list, by_row, a, b0);
    assert forall|g: int| 0 <= g < cells2.len() implies below(#[trigger] cells2[g], pos.len())
        && no_dups(cells2[g]) && has_run(pos, cells2[g], by_row) by {
        if g < cells.len() {
            assert(cells2[g] == cells[g]);
        } else {
            assert(is_run(pos, cells2[g], by_row, a, b0));
        }
    }
    assert forall|g: int, j: int| 0 <= g < cells2.len() && 0 <= j < cells2[g].len() implies seg_id[(
    #[trigger] cells2[g][j]) as int] == g && walked(by_row, pos[cells2[g][j] as int], a, b) by {
        if g < cells.len() {
            assert(cells2[g] == cells[g]);
            assert(seg_id[cells[g][j] as int] == g);
        } else {
            assert(cells2[g][j] == list[j]);
            assert(place(by_row, a, b0 + j) == (
                pos[list[j] as int].0 as int,
                pos[list[j] as int].1 as int,
            ));
        }
    }
    assert forall|x: int|
        0 <= x < pos.len() && walked(by_row, #[trigger] pos[x], a, b) implies seg_id[x]
        < cells2.len() && member(cells2[seg_id[x] as int], x) by {
        if seg_id[x] < cells.len() {
            assert(cells2[seg_id[x] as int] == cells[seg_id[x] as int]);
        }
    }
}

/// Stepping over a place that holds no empty cell keeps what holds of the cut.
pub proof fn lemma_walk_skips(
    pos: Seq<(usize, usize)>,
    seg_id: Seq<usize>,
    cells: Seq<Seq<usize>>,
    by_row: bool,
    a: int,
    b: int,
)
    requires
        cut_so_far(pos, seg_id, cells, by_row, a, b, None),
        forall|x: int| 0 <= x < pos.len() ==> coords(by_row, #[trigger] pos[x]) != (a, b),
    ensures
        cut_so_far(pos, seg_id, cells, by_row, a, b + 1, None),
{
    assert forall|x: int| 0 <= x < pos.len() && walked(by_row, #[trigger] pos[x], a, b + 1) implies walked(
        by_row,
        pos[x],
        a,
        b,
    ) by {}
    assert forall|g: int, j: int| 0 <= g < cells.len() && 0 <= j < cells[g].len() implies seg_id[(
    #[trigger] cells[g][j]) as int] == g && walked(by_row, pos[cells[g][j] as int], a, b + 1) by {
        assert(walked(by_row, pos[cells[g][j] as int], a, b));
    }
}

/// At the end of a line the walk stands at the start of the next.
pub proof fn lemma_line_ends(
    pos: Seq<(usize, usize)>,
    seg_id: Seq<usize>,
    cells: Seq<Seq<usize>>,
    by_row: bool,
    a: int,
    span: int,
    board: Board,
)
    requires
        cut_so_far(pos, seg_id, cells, by_row, a, span, None),
        span == (if by_row { board.w } else { board.h }),
        forall|x: int|
            0 <= x < pos.len() ==> board.inside((#[trigger] pos[x]).0 as int, pos[x].1 as int),
    ensures
        cut_so_far(pos, seg_id, cells, by_row, a + 1, 0, None),
{
    assert forall|x: int| 0 <= x < pos.len() implies (walked(by_row, #[trigger] pos[x], a + 1, 0)
        <==> walked(by_row, pos[x], a, span)) by {
        assert(board.inside(pos[x].0 as int, pos[x].1 as int));
    }
    assert forall|g: int, j: int| 0 <= g < cells.len() && 0 <= j < cells[g].len() implies seg_id[(
    #[trigger] cells[g][j]) as int] == g && walked(by_row, pos[cells[g][j] as int], a + 1, 0) by {
        assert(walked(by_row, pos[cells[g][j] as int], a, span));
    }
    assert forall|x: int, y: int|
        0 <= x < pos.len() && 0 <= y < pos.len() && #[trigger] next_along(pos, by_row, x, y)
            && walked(by_row, pos[y], a + 1, 0) implies seg_id[x] == seg_id[y] by {
        assert(walked(by_row, pos[y], a, span));
    }
    assert forall|x: int, y: int|
        0 <= x < pos.len() && 0 <= y < pos.len() && coords(by_row, #[trigger] pos[x]) == (
            a + 1,
            0 - 1,
        ) && coords(by_row, #[trigger] pos[y]) == (a + 1, 0int) implies false by {}
}

/// When all lines are walked the cut is complete.
pub proof fn lemma_cut_done(
    pos: Seq<(usize, usize)>,
    seg_id: Seq<usize>,
    cells: Seq<Seq<usize>>,
    by_row: bool,
    lines: int,
    board: Board,
)
    requires
        cut_so_far(pos, seg_id, cells, by_row, lines, 0, None),
        lines == (if by_row { board.h } else { board.w }),
        forall|x: int|
            0 <= x < pos.len() ==> board.inside((#[trigger] pos[x]).0 as int, pos[x].1 as int),
    ensures
        cut_ok(pos, seg_id, cells, by_row),
{
    assert forall|x: int| 0 <= x < pos.len() implies walked(by_row, #[trigger] pos[x], lines, 0) by {
        assert(board.inside(pos[x].0 as int, pos[x].1 as int));
    }
    assert forall|x: int| 0 <= x < pos.len() implies (#[trigger] seg_id[x]) < cells.len() by {
        assert(walked(by_row, pos[x], lines, 0));
    }
    assert forall|g: int, x: int| 0 <= g < cells.len() && 0 <= x < pos.len() implies (
    #[trigger] member(cells[g], x) <==> seg_id[x] == g) by {
        assert(walked(by_row, pos[x], lines, 0));
        if member(cells[g], x) {
            let j = choose|j: int| 0 <= j < cells[g].len() && #[trigger] cells[g][j] == x;
            assert(seg_id[cells[g][j] as int] == g);
        }
    }
    assert forall|x: int, y: int|
        0 <= x < pos.len() && 0 <= y < pos.len() && #[trigger] next_along(
            pos,
            by_row,
            x,
            y,
        ) implies seg_id[x] == seg_id[y] by {
        assert(walked(by_row, pos[y], lines, 0));
    }
}

/// The number of the empty cell at `(r, c)`.
pub open spec fn id_at(pos: Seq<(usize, usize)>, r: int, c: int) -> int {
    choose|x: int| 0 <= x < pos.len() && pos[x].0 == r && pos[x].1 == c
}

/// The number of the empty cell at `(r, c)` as a list, empty where the cell is not empty.
pub open spec fn opt_id(pos: Seq<(usize, usize)>, board: Board, r: int, c: int) -> Seq<usize> {
    if board.open_at(r, c) {
        seq![id_at(pos, r, c) as usize]
    } else {
        Seq::empty()
    }
}

/// The numbers of the empty cells beside `(r, c)` in the first `i` directions.
pub open spec fn neighbor_ids_upto(
    pos: Seq<(usize, usize)>,
    board: Board,
    r: int,
    c: int,
    i: int,
) -> Seq<
    usize,
>
    decreases i,
{
    if i <= 0 {
        Seq::empty()
    } else {
        neighbor_ids_upto(pos, board, r, c, i - 1) + opt_id(
            pos,
            board,
            moved(r, c, direction(i - 1), 1).0,
            moved(r, c, direction(i - 1), 1).1,
        )
    }
}

/// The numbers of the empty cells beside `(r, c)`, in the order of the directions.
pub open spec fn neighbor_ids(pos: Seq<(usize, usize)>, board: Board, r: int, c: int) -> Seq<usize> {
    neighbor_ids_upto(pos, board, r, c, 4)
}

/// Wall `k` is the numbered wall at `(r, c)`.
pub open spec fn wall_is(
    pos: Seq<(usize, usize)>,
    board: Board,
    num_value: Seq<usize>,
    num_adj: Seq<Seq<usize>>,
    k: int,
    r: int,
    c: int,
) -> bool {
    &&& 0 <= k < num_adj.len()
    &&& board.cells[r][c].target() == Some(num_value[k] as nat)
    &&& num_adj[k] == neighbor_ids(pos, board, r, c)
}

/// Every numbered wall of the board is listed with its number and the empty cells beside it.
pub open spec fn walls_listed(
    pos: Seq<(usize, usize)>,
    board: Board,
    num_value: Seq<usize>,
    num_adj: Seq<Seq<usize>>,
    upto_r: int,
    upto_c: int,
) -> bool {
    forall|r: int, c: int|
        board.inside(r, c) && (r < upto_r || (r == upto_r && c < upto_c)) && (
        #[trigger] board.cells[r][c]).target() is Some ==> exists|k: int| #[trigger]
            wall_is(pos, board, num_value, num_adj, k, r, c)
}

/// Wall `k` is a numbered wall of the board.
pub open spec fn is_wall(
    pos: Seq<(usize, usize)>,
    board: Board,
    num_value: Seq<usize>,
    num_adj: Seq<Seq<usize>>,
    k: int,
) -> bool {
    exists|r: int, c: int|
        board.inside(r, c) && #[trigger] wall_is(pos, board, num_value, num_adj, k, r, c)
}

/// Every listed wall is a numbered wall of the board.
pub open spec fn walls_real(
    pos: Seq<(usize, usize)>,
    board: Board,
    num_value: Seq<usize>,
    num_adj: Seq<Seq<usize>>,
) -> bool {
    forall|k: int| 0 <= k < num_adj.len() ==> #[trigger] is_wall(pos, board, num_value, num_adj, k)
}

/// The walls and the cells beside them name each other.
pub open spec fn walls_ok(n: nat, num_value: Seq<usize>, num_adj: Seq<Seq<usize>>, near: Seq<Seq<usize>>) -> bool {
    &&& num_value.len() == num_adj.len()
    &&& near.len() == n
    &&& forall|k: int|
        0 <= k < num_adj.len() ==> below(#[trigger] num_adj[k], n) && no_dups(num_adj[k])
            && num_adj[k].len() <= 4 && num_value[k] <= 4
    &&& forall|x: int| 0 <= x < n ==> below(#[trigger] near[x], num_adj.len()) && no_dups(near[x])
    &&& forall|x: int, k: int|
        0 <= x < n && 0 <= k < num_adj.len() ==> (#[trigger] member(near[x], k) <==> member(
            num_adj[k],
            x,
        ))
}

/// The lists of cells beside the walls.
pub open spec fn adj_of(walls: Seq<NumCell>) -> Seq<Seq<usize>> {
    Seq::new(walls.len(), |k: int| walls[k].adj@)
}

/// The numbers of the walls.
pub open spec fn value_of(walls: Seq<NumCell>) -> Seq<usize> {
    Seq::new(walls.len(), |k: int| walls[k].value)
}

/// The lists as sequences.
pub open spec fn lists_of(v: Seq<Vec<usize>>) -> Seq<Seq<usize>> {
    Seq::new(v.len(), |x: int| v[x]@)
}

/// The empty cells are numbered one to one.
pub open spec fn placed(pos: Seq<(usize, usize)>, board: Board) -> bool {
    &&& forall|x: int|
        0 <= x < pos.len() ==> board.open_at((#[trigger] pos[x]).0 as int, pos[x].1 as int)
    &&& forall|x: int, y: int|
        0 <= x < pos.len() && 0 <= y < pos.len() && #[trigger] pos[x] == #[trigger] pos[y] ==> x == y
    &&& forall|r: int, c: int|
        #[trigger] board.open_at(r, c) ==> 0 <= id_at(pos, r, c) < pos.len() && pos[id_at(
            pos,
            r,
            c,
        )].0 == r && pos[id_at(pos, r, c)].1 == c
}

/// A numbering by a grid of numbers numbers the empty cells one to one.
pub proof fn lemma_numbered_placed(
    pos: Seq<(usize, usize)>,
    ids: Seq<Vec<Option<usize>>>,
    board: Board,
)
    requires
        numbered(pos, ids, board),
        pos.len() <= usize::MAX,
        board.h <= usize::MAX,
        board.w <= usize::MAX,
    ensures
        placed(pos, board),
        forall|r: int, c: int|
            #[trigger] board.open_at(r, c) ==> ids[r]@[c] == Some(id_at(pos, r, c) as usize),
{
    assert forall|x: int, y: int|
        0 <= x < pos.len() && 0 <= y < pos.len() && #[trigger] pos[x] == #[trigger] pos[y] implies x
        == y by {
        assert(ids[pos[x].0 as int]@[pos[x].1 as int] == Some(x as usize));
        assert(ids[pos[y].0 as int]@[pos[y].1 as int] == Some(y as usize));
    }
    assert forall|r: int, c: int| #[trigger] board.open_at(r, c) implies 0 <= id_at(pos, r, c)
        < pos.len() && pos[id_at(pos, r, c)].0 == r && pos[id_at(pos, r, c)].1 == c && ids[r]@[c]
        == Some(id_at(pos, r, c) as usize) by {
        let x = ids[r]@[c]->0 as int;
        assert(ids[r]@[c] is Some);
        assert(pos[x].0 == r && pos[x].1 == c);
        let y = id_at(pos, r, c);
        assert(pos[y] == pos[x]);
    }
}

/// The place `a` comes before the place `b` in row-major order.
pub open spec fn precedes(a: (usize, usize), b: (usize, usize)) -> bool {
    a.0 < b.0 || (a.0 == b.0 && a.1 < b.1)
}

/// The places are listed in row-major order, none twice.
pub open spec fn rising(places: Seq<(usize, usize)>) -> bool {
    forall|x: int, y: int|
        0 <= x < y < places.len() ==> precedes(#[trigger] places[x], #[trigger] places[y])
}

/// The place `(r, c)` is among the first `upto` of `places`.
pub open spec fn listed_at(places: Seq<(usize, usize)>, r: int, c: int) -> bool {
    exists|k: int| 0 <= k < places.len() && (#[trigger] places[k]).0 == r && places[k].1 == c
}

/// The walls are listed at the given places: wall `k` is the numbered wall
/// at `places[k]`, the places are in row-major order, and every numbered
/// wall before place `(upto_r, upto_c)` is among them.
pub open spec fn walls_placed(
    pos: Seq<(usize, usize)>,
    board: Board,
    num_value: Seq<usize>,
    num_adj: Seq<Seq<usize>>,
    places: Seq<(usize, usize)>,
    upto_r: int,
    upto_c: int,
) -> bool {
    &&& places.len() == num_adj.len()
    &&& rising(places)
    &&& forall|k: int|
        0 <= k < places.len() ==> board.inside(
            (#[trigger] places[k]).0 as int,
            places[k].1 as int,
        ) && (places[k].0 < upto_r || (places[k].0 == upto_r && places[k].1 < upto_c)) && wall_is(
            pos,
            board,
            num_value,
            num_adj,
            k,
            places[k].0 as int,
            places[k].1 as int,
        )
    &&& forall|r: int, c: int|
        board.inside(r, c) && (r < upto_r || (r == upto_r && c < upto_c)) && (
        #[trigger] board.cells[r][c]).target() is Some ==> listed_at(places, r, c)
}

/// The walls are listed once each in row-major order of their places.
pub open spec fn walls_in_order(l: Layout, board: Board) -> bool {
    exists|places: Seq<(usize, usize)>|
        walls_placed(l.empty_pos, board, l.num_value, l.num_adj, places, board.h as int, 0)
}

/// `row` followed by the cells of `col` that are not listed yet, in order.
pub open spec fn joined(row: Seq<usize>, col: Seq<usize>) -> Seq<usize>
    decreases col.len(),
{
    if col.len() == 0 {
        row
    } else {
        let front = joined(row, col.drop_last());
        if front.contains(col.last()) {
            front
        } else {
            front.push(col.last())
        }
    }
}

/// The fixed part of the state describes the board: the empty cells are
/// numbered one to one in row-major order, the segments are the runs of
/// empty cells of its rows and columns, numbered as a walk along the rows
/// (or down the columns) meets them, every numbered wall is listed once
/// in row-major order, and the lit list of a cell is its row segment
/// followed by what its column segment adds.
pub open spec fn charted(l: Layout, board: Board) -> bool {
    &&& l.empty_pos.len() == l.n
    &&& l.n <= usize::MAX
    &&& rising(l.empty_pos)
    &&& walls_in_order(l, board)
    &&& l.lit_list.len() == l.n
    &&& forall|x: int|
        0 <= x < l.n ==> (#[trigger] l.lit_list[x]) == joined(
            l.row_cells[l.row_seg_id[x] as int],
            l.col_cells[l.col_seg_id[x] as int],
        )
    &&& placed(l.empty_pos, board)
    &&& cut_ok(l.empty_pos, l.row_seg_id, l.row_cells, true)
    &&& cut_ok(l.empty_pos, l.col_seg_id, l.col_cells, false)
    &&& segs_in_order(l.empty_pos, l.row_cells, true)
    &&& segs_in_order(l.empty_pos, l.col_cells, false)
    &&& walls_listed(l.empty_pos, board, l.num_value, l.num_adj, board.h as int, 0)
    &&& walls_real(l.empty_pos, board, l.num_value, l.num_adj)
}

impl Core {
    /// Numbers the empty cells of the field in row-major order.
    pub(crate) fn number_cells(field: &Field) -> (res: (Vec<(usize, usize)>, Vec<Vec<Option<usize>>>))
        requires
            field.wf(),
        ensures
            numbered(res.0@, res.1@, field@),
            rising(res.0@),
    {
        let ghost board = field@;
        let mut pos: Vec<(usize, usize)> = Vec::new();
        let mut ids: Vec<Vec<Option<usize>>> = Vec::new();
        let mut r: usize = 0;
        while r < field.h
            invariant
                field.wf(),
                board == field@,
                0 <= r <= field.h,
                ids@.len() == r,
                rising(pos@),
                forall|x: int| 0 <= x < r ==> (#[trigger] ids@[x])@.len() == board.w,
                forall|x: int|
                    0 <= x < pos@.len() ==> board.open_at(
                        (#[trigger] pos@[x]).0 as int,
                        pos@[x].1 as int,
                    ) && pos@[x].0 < r && ids@[pos@[x].0 as int]@[pos@[x].1 as int] == Some(
                        x as usize,
                    ),
                forall|x: int, y: int|
                    0 <= x < r && 0 <= y < board.w ==> match #[trigger] ids@[x]@[y] {
                        Some(i) => i < pos@.len() && pos@[i as int] == (x as usize, y as usize)
                            && board.open_at(x, y),
                        None => !board.open_at(x, y),
                    },
            decreases field.h - r,
        {
            let mut row: Vec<Option<usize>> = Vec::new();
            let mut c: usize = 0;
            assert(board.cells[r as int].len() == field.w);
            while c < field.w
                invariant
                    field.wf(),
                    board == field@,
                    0 <= r < field.h,
                    0 <= c <= field.w,
                    ids@.len() == r,
                    row@.len() == c,
                    rising(pos@),
                    forall|x: int|
                        0 <= x < pos@.len() ==> {
                            &&& board.open_at((#[trigger] pos@[x]).0 as int, pos@[x].1 as int)
                            &&& pos@[x].0 <= r
                            &&& pos@[x].0 < r ==> ids@[pos@[x].0 as int]@[pos@[x].1 as int] == Some(
                                x as usize,
                            )
                            &&& pos@[x].0 == r ==> pos@[x].1 < c && row@[pos@[x].1 as int] == Some(
                                x as usize,
                            )
                        },
                    forall|x: int, y: int|
                        0 <= x < r && 0 <= y < board.w ==> match #[trigger] ids@[x]@[y] {
                            Some(i) => i < pos@.len() && pos@[i as int] == (x as usize, y as usize)
                                && board.open_at(x, y),
                            None => !board.open_at(x, y),
                        },
                    forall|y: int|
                        0 <= y < c ==> match #[trigger] row@[y] {
                            Some(i) => i < pos@.len() && pos@[i as int] == (r, y as usize)
                                && board.open_at(r as int, y),
                            None => !board.open_at(r as int, y),
                        },
                decreases field.w - c,
            {
                assert(board.cells[r as int].len() == field.w);
                if field.field[r][c].is_empty() {
                    let id = pos.len();
                    let ghost so_far = pos@;
                    pos.push((r, c));
                    row.push(Some(id));
                    proof {
                        assert forall|x: int, y: int| 0 <= x < y < pos@.len() implies precedes(
                            #[trigger] pos@[x],
                            #[trigger] pos@[y],
                        ) by {
                            assert(pos@[x] == so_far[x]);
                            if y < so_far.len() {
                                assert(pos@[y] == so_far[y]);
                            }
                        }
                    }
                } else {
                    row.push(None);
                }
                c = c + 1;
            }
            ids.push(row);
            r = r + 1;
        }
        (pos, ids)
    }

    /// Cuts the rows (or, where `by_row` is false, the columns) of the
    /// field into segments of empty cells, and gives every empty cell the
    /// number of its segment.
    pub(crate) fn cut_segments(
        field: &Field,
        ids: &Vec<Vec<Option<usize>>>,
        n: usize,
        by_row: bool,
        Ghost(pos): Ghost<Seq<(usize, usize)>>,
    ) -> (res: (Vec<usize>, Vec<Segment>))
        requires
            field.wf(),
            numbered(pos, ids@, field@),
            n == pos.len(),
        ensures
            cut_ok(pos, res.0@, cells_of(res.1@), by_row),
            segs_in_order(pos, cells_of(res.1@), by_row),
            forall|g: int|
                0 <= g < res.1@.len() ==> (#[trigger] res.1@[g]).light is None && res.1@[g].free_cnt
                    == res.1@[g].cells@.len(),
    {
        let ghost board = field@;
        let (lines, span) = if by_row {
            (field.h, field.w)
        } else {
            (field.w, field.h)
        };
        let mut seg_id: Vec<usize> = Vec::new();
        let mut x: usize = 0;
        while x < n
            invariant
                0 <= x <= n,
                seg_id@.len() == x,
            decreases n - x,
        {
            seg_id.push(0);
            x = x + 1;
        }
        let mut segs: Vec<Segment> = Vec::new();
        let mut a: usize = 0;
        while a < lines
            invariant
                field.wf(),
                board == field@,
                numbered(pos, ids@, board),
                n == pos.len(),
                lines == (if by_row { field.h } else { field.w }),
                span == (if by_row { field.w } else { field.h }),
                0 <= a <= lines,
                cut_so_far(pos, seg_id@, cells_of(segs@), by_row, a as int, 0, None),
                segs_in_order(pos, cells_of(segs@), by_row),
                forall|g: int|
                    0 <= g < segs@.len() ==> (#[trigger] segs@[g]).light is None
                        && segs@[g].free_cnt == segs@[g].cells@.len(),
            decreases lines - a,
        {
            let mut b: usize = 0;
            while b < span
                invariant
                    field.wf(),
                    board == field@,
                    numbered(pos, ids@, board),
                    n == pos.len(),
                    lines == (if by_row { field.h } else { field.w }),
                    span == (if by_row { field.w } else { field.h }),
                    0 <= a < lines,
                    0 <= b <= span,
                    cut_so_far(pos, seg_id@, cells_of(segs@), by_row, a as int, b as int, None),
                    segs_in_order(pos, cells_of(segs@), by_row),
                    forall|g: int|
                        0 <= g < segs@.len() ==> (#[trigger] segs@[g]).light is None
                            && segs@[g].free_cnt == segs@[g].cells@.len(),
                decreases span - b,
            {
                let (r, c) = if by_row {
                    (a, b)
                } else {
                    (b, a)
                };
                assert(board.cells[r as int].len() == field.w);
                if field.field[r][c].is_empty() {
                    let mut cells: Vec<usize> = Vec::new();
                    let ghost b0 = b as int;
                    let ghost done = cells_of(segs@);
                    proof {
                        assert(ids@[r as int]@.len() == field.w);
                        let first = ids@[r as int]@[c as int]->0 as int;
                        assert(board.open_at(r as int, c as int));
                        assert(pos[first] == (r, c));
                        assert forall|g: int| 0 <= g < done.len() implies walked(
                            by_row,
                            pos[(#[trigger] done[g])[0] as int],
                            a as int,
                            b0,
                        ) by {
                            assert(done[g].len() > 0);
                            assert(walked(by_row, pos[done[g][0] as int], a as int, b as int));
                        }
                        lemma_run_starts(pos, seg_id@, done, by_row, a as int, b as int, first);
                    }
                    loop
                        invariant
                            field.wf(),
                            board == field@,
                            numbered(pos, ids@, board),
                            n == pos.len(),
                            lines == (if by_row { field.h } else { field.w }),
                            span == (if by_row { field.w } else { field.h }),
                            0 <= a < lines,
                            0 <= b <= span,
                            done == cells_of(segs@),
                            segs_in_order(pos, done, by_row),
                            forall|g: int|
                                0 <= g < done.len() ==> walked(
                                    by_row,
                                    pos[(#[trigger] done[g])[0] as int],
                                    a as int,
                                    b0,
                                ),
                            b0 <= b,
                            b == b0 ==> b < span && board.open_at(
                                place(by_row, a as int, b as int).0,
                                place(by_row, a as int, b as int).1,
                            ),
                            cut_so_far(
                                pos,
                                seg_id@,
                                done,
                                by_row,
                                a as int,
                                b as int,
                                Some((b0, cells@)),
                            ),
                        ensures
                            b > b0,
                            0 <= b <= span,
                            b < span ==> !board.open_at(
                                place(by_row, a as int, b as int).0,
                                place(by_row, a as int, b as int).1,
                            ),
                            cut_so_far(
                                pos,
                                seg_id@,
                                done,
                                by_row,
                                a as int,
                                b as int,
                                Some((b0, cells@)),
                            ),
                        decreases span - b,
                    {
                        if b >= span {
                            break ;
                        }
                        let (r, c) = if by_row {
                            (a, b)
                        } else {
                            (b, a)
                        };
                        assert(board.cells[r as int].len() == field.w);
                        assert(ids@[r as int]@.len() == field.w);
                        if !field.field[r][c].is_empty() {
                            break ;
                        }
                        assert(board.open_at(r as int, c as int));
                        let id = match ids[r][c] {
                            Some(id) => id,
                            None => 0,
                        };
                        assert(id < n && pos[id as int] == (r, c));
                        let ghost before = seg_id@;
                        let ghost list = cells@;
                        seg_id[id] = segs.len();
                        cells.push(id);
                        proof {
                            lemma_run_grows(
                                pos,
                                before,
                                done,
                                by_row,
                                a as int,
                                b as int,
                                b0,
                                list,
                                id as int,
                            );
                        }
                        b = b + 1;
                    }
                    proof {
                        lemma_run_closes(pos, seg_id@, done, by_row, a as int, b as int, b0, cells@);
                    }
                    let ghost run = cells@;
                    segs.push(Segment { light: None, free_cnt: cells.len(), cells });
                    proof {
                        let all = cells_of(segs@);
                        assert(all =~= done.push(run));
                        assert(run.len() == b - b0);
                        assert(is_run(pos, run, by_row, a as int, b0));
                        assert(coords(by_row, pos[run[0] as int]) == (a as int, b0)) by {
                            assert((pos[run[0] as int].0 as int, pos[run[0] as int].1 as int)
                                == place(by_row, a as int, b0 + 0));
                        }
                        assert forall|g: int| 0 <= g < all.len() implies (#[trigger] all[g]).len()
                            > 0 by {
                            if g < done.len() {
                                assert(all[g] == done[g]);
                            }
                        }
                        assert forall|g: int, g2: int| 0 <= g < g2 < all.len() implies starts_before(
                            by_row,
                            pos[(#[trigger] all[g])[0] as int],
                            pos[(#[trigger] all[g2])[0] as int],
                        ) by {
                            assert(all[g] == done[g]);
                            if g2 < done.len() {
                                assert(all[g2] == done[g2]);
                            } else {
                                assert(all[g2] == run);
                                assert(walked(by_row, pos[done[g][0] as int], a as int, b0));
                            }
                        }
                    }
                } else {
                    proof {
                        lemma_walk_skips(pos, seg_id@, cells_of(segs@), by_row, a as int, b as int);
                    }
                    b = b + 1;
                }
            }
            proof {
                lemma_line_ends(pos, seg_id@, cells_of(segs@), by_row, a as int, span as int, board);
            }
            a = a + 1;
        }
        proof {
            lemma_cut_done(pos, seg_id@, cells_of(segs@), by_row, lines as int, board);
        }
        (seg_id, segs)
    }

    /// Lists the numbered walls of the field in row-major order, each with
    /// the empty cells beside it, and for every empty cell the walls beside it.
    pub(crate) fn list_walls(
        field: &Field,
        ids: &Vec<Vec<Option<usize>>>,
        n: usize,
        Ghost(pos): Ghost<Seq<(usize, usize)>>,
    ) -> (res: (Vec<NumCell>, Vec<Vec<usize>>, Ghost<Seq<(usize, usize)>>))
        requires
            field.wf(),
            numbered(pos, ids@, field@),
            n == pos.len(),
        ensures
            walls_ok(n as nat, value_of(res.0@), adj_of(res.0@), lists_of(res.1@)),
            walls_listed(pos, field@, value_of(res.0@), adj_of(res.0@), field.h as int, 0),
            walls_real(pos, field@, value_of(res.0@), adj_of(res.0@)),
            walls_placed(
                pos,
                field@,
                value_of(res.0@),
                adj_of(res.0@),
                res.2@,
                field.h as int,
                0,
            ),
            forall|k: int|
                0 <= k < res.0@.len() ==> (#[trigger] res.0@[k]).on == 0 && res.0@[k].unk
                    == res.0@[k].adj@.len(),
    {
        let ghost board = field@;
        let (h, w) = (field.h, field.w);
        let mut walls: Vec<NumCell> = Vec::new();
        let mut near: Vec<Vec<usize>> = Vec::new();
        let ghost mut places: Seq<(usize, usize)> = Seq::empty();
        let mut x: usize = 0;
        while x < n
            invariant
                0 <= x <= n,
                near@.len() == x,
                forall|y: int| 0 <= y < x ==> (#[trigger] near@[y])@.len() == 0,
            decreases n - x,
        {
            near.push(Vec::new());
            x = x + 1;
        }
        proof {
            lemma_numbered_placed(pos, ids@, board);
        }
        let mut r: usize = 0;
        while r < h
            invariant
                field.wf(),
                board == field@,
                h == field.h,
                w == field.w,
                numbered(pos, ids@, board),
                placed(pos, board),
                n == pos.len(),
                0 <= r <= h,
                walls_ok(n as nat, value_of(walls@), adj_of(walls@), lists_of(near@)),
                walls_listed(pos, board, value_of(walls@), adj_of(walls@), r as int, 0),
                walls_real(pos, board, value_of(walls@), adj_of(walls@)),
                walls_placed(pos, board, value_of(walls@), adj_of(walls@), places, r as int, 0),
                forall|k: int|
                    0 <= k < walls@.len() ==> (#[trigger] walls@[k]).on == 0 && walls@[k].unk
                        == walls@[k].adj@.len(),
            decreases h - r,
        {
            let mut c: usize = 0;
            while c < w
                invariant
                    field.wf(),
                    board == field@,
                    h == field.h,
                    w == field.w,
                    numbered(pos, ids@, board),
                    placed(pos, board),
                    n == pos.len(),
                    0 <= r < h,
                    0 <= c <= w,
                    walls_ok(n as nat, value_of(walls@), adj_of(walls@), lists_of(near@)),
                    walls_listed(pos, board, value_of(walls@), adj_of(walls@), r as int, c as int),
                    walls_real(pos, board, value_of(walls@), adj_of(walls@)),
                    walls_placed(
                        pos,
                        board,
                        value_of(walls@),
                        adj_of(walls@),
                        places,
                        r as int,
                        c as int,
                    ),
                    forall|k: int|
                        0 <= k < walls@.len() ==> (#[trigger] walls@[k]).on == 0 && walls@[k].unk
                            == walls@[k].adj@.len(),
                decreases w - c,
            {
                assert(board.cells[r as int].len() == w);
                if let Some(value) = field.field[r][c].is_adj() {
                    let ghost k = walls@.len() as int;
                    let ghost done_value = value_of(walls@);
                    let ghost done_adj = adj_of(walls@);
                    let ghost near0 = lists_of(near@);
                    let mut adj: Vec<usize> = Vec::new();
                    let mut i: usize = 0;
                    proof {
                        assert forall|y: int| 0 <= y < n implies below(
                            #[trigger] near@[y]@,
                            (k + 1) as nat,
                        ) && no_dups(near@[y]@) by {
                            assert(near@[y]@ == near0[y]);
                            assert(below(near0[y], k as nat));
                        }
                        assert forall|y: int, k2: int| 0 <= y < n && 0 <= k2 < k implies (member(
                            (#[trigger] near@[y])@,
                            k2,
                        ) <==> #[trigger] member(done_adj[k2], y)) by {
                            assert(near@[y]@ == near0[y]);
                            assert(member(near0[y], k2) <==> member(done_adj[k2], y));
                        }
                        assert forall|y: int| 0 <= y < n implies (member(
                            (#[trigger] near@[y])@,
                            k,
                        ) <==> member(adj@, y)) by {
                            assert(near@[y]@ == near0[y]);
                            if member(near0[y], k) {
                                let j = choose|j: int|
                                    0 <= j < near0[y].len() && #[trigger] near0[y][j] == k;
                                assert(near0[y][j] < k);
                            }
                        }
                    }
                    while i < 4
                        invariant
                            field.wf(),
                            board == field@,
                            h == field.h,
                            w == field.w,
                            numbered(pos, ids@, board),
                            placed(pos, board),
                            n == pos.len(),
                            0 <= r < h,
                            0 <= c < w,
                            0 <= i <= 4,
                            k == walls@.len(),
                            done_value == value_of(walls@),
                            done_adj == adj_of(walls@),
                            walls_real(pos, board, done_value, done_adj),
                            walls_placed(pos, board, done_value, done_adj, places, r as int, c as int),
                            walls_ok(n as nat, done_value, done_adj, near0),
                            near@.len() == n,
                            adj@ == neighbor_ids_upto(pos, board, r as int, c as int, i as int),
                            adj@.len() <= i,
                            below(adj@, n as nat),
                            no_dups(adj@),
                            forall|j: int|
                                0 <= j < adj@.len() ==> exists|i2: int|
                                    0 <= i2 < i && (
                                    pos[(#[trigger] adj@[j]) as int].0 as int,
                                    pos[adj@[j] as int].1 as int,
                                ) == #[trigger] moved(r as int, c as int, direction(i2), 1),
                            forall|y: int|
                                0 <= y < n ==> below(#[trigger] near@[y]@, (k + 1) as nat)
                                    && no_dups(near@[y]@),
                            forall|y: int, k2: int|
                                0 <= y < n && 0 <= k2 < k ==> (member(
                                    (#[trigger] near@[y])@,
                                    k2,
                                ) <==> #[trigger] member(done_adj[k2], y)),
                            forall|y: int|
                                0 <= y < n ==> (member((#[trigger] near@[y])@, k) <==> member(
                                    adj@,
                                    y,
                                )),
                        decreases 4 - i,
                    {
                        let ghost m = moved(r as int, c as int, direction(i as int), 1);
                        let ghost adj0 = adj@;
                        let ghost near1 = near@;
                        if let Some((nr, nc)) = (r, c).dir(h, w, ADJ[i]) {
                            assert(m == (nr as int, nc as int));
                            assert(board.cells[nr as int].len() == w);
                            assert(ids@[nr as int]@.len() == w);
                            if field.field[nr][nc].is_empty() {
                                assert(board.open_at(nr as int, nc as int));
                                let id = match ids[nr][nc] {
                                    Some(id) => id,
                                    None => 0,
                                };
                                assert(ids@[nr as int]@[nc as int] == Some(
                                    id_at(pos, nr as int, nc as int) as usize,
                                ));
                                assert(id == id_at(pos, nr as int, nc as int));
                                assert(id < n && pos[id as int] == (nr, nc));
                                proof {
                                    assert(!member(adj0, id as int)) by {
                                        if member(adj0, id as int) {
                                            let j = choose|j: int|
                                                0 <= j < adj0.len() && #[trigger] adj0[j] == id;
                                            let i2 = choose|i2: int|
                                                0 <= i2 < i && (
                                                    pos[adj0[j] as int].0 as int,
                                                    pos[adj0[j] as int].1 as int,
                                                ) == #[trigger] moved(
                                                    r as int,
                                                    c as int,
                                                    direction(i2),
                                                    1,
                                                );
                                            assert(moved(r as int, c as int, direction(i2), 1)
                                                != m);
                                        }
                                    }
                                    assert(!member(near1[id as int]@, k));
                                }
                                adj.push(id);
                                let mut list = Vec::new();
                                std::mem::swap(&mut list, &mut near[id]);
                                list.push(walls.len());
                                std::mem::swap(&mut list, &mut near[id]);
                                proof {
                                    assert(adj@ =~= adj0 + opt_id(pos, board, m.0, m.1));
                                    assert(near@[id as int]@ == near1[id as int]@.push(
                                        k as usize,
                                    ));
                                    lemma_pushed(adj0, id, n as nat);
                                    lemma_pushed(near1[id as int]@, k as usize, (k + 1) as nat);
                                    assert forall|j: int| 0 <= j < adj@.len() implies exists|
                                        i2: int,
                                    |
                                        0 <= i2 < i + 1 && (
                                            pos[(#[trigger] adj@[j]) as int].0 as int,
                                            pos[adj@[j] as int].1 as int,
                                        ) == #[trigger] moved(
                                            r as int,
                                            c as int,
                                            direction(i2),
                                            1,
                                        ) by {
                                        if j < adj0.len() {
                                            assert(adj@[j] == adj0[j]);
                                            let i2 = choose|i2: int|
                                                0 <= i2 < i && (
                                                    pos[adj0[j] as int].0 as int,
                                                    pos[adj0[j] as int].1 as int,
                                                ) == #[trigger] moved(
                                                    r as int,
                                                    c as int,
                                                    direction(i2),
                                                    1,
                                                );
                                            assert(0 <= i2 < i + 1);
                                        } else {
                                            assert(moved(
                                                r as int,
                                                c as int,
                                                direction(i as int),
                                                1,
                                            ) == m);
                                        }
                                    }
                                    assert forall|y: int| 0 <= y < n implies below(
                                        #[trigger] near@[y]@,
                                        (k + 1) as nat,
                                    ) && no_dups(near@[y]@) by {
                                        if y != id {
                                            assert(near@[y] == near1[y]);
                                        }
                                    }
                                    assert forall|y: int, k2: int|
                                        0 <= y < n && 0 <= k2 < k implies (member(
                                        (#[trigger] near@[y])@,
                                        k2,
                                    ) <==> #[trigger] member(done_adj[k2], y)) by {
                                        if y != id {
                                            assert(near@[y] == near1[y]);
                                        } else {
                                            lemma_push_member(near1[id as int]@, k as usize, k2);
                                        }
                                    }
                                    assert forall|y: int| 0 <= y < n implies (member(
                                        (#[trigger] near@[y])@,
                                        k,
                                    ) <==> member(adj@, y)) by {
                                        lemma_push_member(adj0, id, y);
                                        if y != id {
                                            assert(near@[y] == near1[y]);
                                        } else {
                                            lemma_push_member(near1[id as int]@, k as usize, k);
                                        }
                                    }
                                }
                            } else {
                                assert(adj@ =~= adj0 + opt_id(pos, board, m.0, m.1));
                            }
                        } else {
                            assert(!board.inside(m.0, m.1));
                            assert(adj@ =~= adj0 + opt_id(pos, board, m.0, m.1));
                        }
                        i = i + 1;
                    }
                    let unk = adj.len();
                    walls.push(NumCell { value, adj, on: 0, unk });
                    let ghost old_places = places;
                    proof {
                        places = places.push((r, c));
                    }
                    proof {
                        let v2 = value_of(walls@);
                        let a2 = adj_of(walls@);
                        assert(v2 =~= done_value.push(value));
                        assert(a2 =~= done_adj.push(adj@));
                        assert(wall_is(pos, board, v2, a2, k, r as int, c as int));
                        assert(walls_placed(pos, board, v2, a2, places, r as int, c + 1)) by {
                            assert forall|x: int, y: int| 0 <= x < y < places.len() implies precedes(
                                #[trigger] places[x],
                                #[trigger] places[y],
                            ) by {
                                assert(places[x] == old_places[x]);
                                if y < old_places.len() {
                                    assert(places[y] == old_places[y]);
                                }
                            }
                            assert forall|k2: int| 0 <= k2 < places.len() implies board.inside(
                                (#[trigger] places[k2]).0 as int,
                                places[k2].1 as int,
                            ) && (places[k2].0 < r || (places[k2].0 == r && places[k2].1 < c + 1))
                                && wall_is(
                                pos,
                                board,
                                v2,
                                a2,
                                k2,
                                places[k2].0 as int,
                                places[k2].1 as int,
                            ) by {
                                if k2 < k {
                                    assert(places[k2] == old_places[k2]);
                                    assert(a2[k2] == done_adj[k2]);
                                    assert(v2[k2] == done_value[k2]);
                                    assert(wall_is(
                                        pos,
                                        board,
                                        done_value,
                                        done_adj,
                                        k2,
                                        old_places[k2].0 as int,
                                        old_places[k2].1 as int,
                                    ));
                                }
                            }
                            assert forall|r2: int, c2: int|
                                board.inside(r2, c2) && (r2 < r || (r2 == r && c2 < c + 1)) && (
                                #[trigger] board.cells[r2][c2]).target() is Some implies listed_at(
                                places,
                                r2,
                                c2,
                            ) by {
                                if r2 == r && c2 == c {
                                    assert(places[k].0 == r2 && places[k].1 == c2);
                                } else {
                                    assert(listed_at(old_places, r2, c2));
                                    let k2 = choose|k2: int|
                                        0 <= k2 < old_places.len() && (
                                        #[trigger] old_places[k2]).0 == r2 && old_places[k2].1
                                            == c2;
                                    assert(places[k2] == old_places[k2]);
                                }
                            }
                        }
                        assert(walls_ok(n as nat, v2, a2, lists_of(near@))) by {
                            assert forall|j: int| 0 <= j < a2.len() implies below(
                                #[trigger] a2[j],
                                n as nat,
                            ) && no_dups(a2[j]) && a2[j].len() <= 4 && v2[j] <= 4 by {
                                if j < k {
                                    assert(a2[j] == done_adj[j]);
                                    assert(v2[j] == done_value[j]);
                                }
                            }
                            assert forall|y: int, k2: int|
                                0 <= y < n && 0 <= k2 < a2.len() implies (#[trigger] member(
                                lists_of(near@)[y],
                                k2,
                            ) <==> member(a2[k2], y)) by {
                                if k2 < k {
                                    assert(a2[k2] == done_adj[k2]);
                                    assert(member(near@[y]@, k2) <==> member(done_adj[k2], y));
                                } else {
                                    assert(member(near@[y]@, k) <==> member(adj@, y));
                                }
                            }
                            assert forall|y: int| 0 <= y < n implies below(
                                #[trigger] lists_of(near@)[y],
                                a2.len(),
                            ) && no_dups(lists_of(near@)[y]) by {
                                assert(below(near@[y]@, (k + 1) as nat));
                            }
                        }
                        assert(walls_real(pos, board, v2, a2)) by {
                            assert forall|k2: int| 0 <= k2 < a2.len() implies #[trigger] is_wall(
                                pos,
                                board,
                                v2,
                                a2,
                                k2,
                            ) by {
                                if k2 < k {
                                    assert(is_wall(pos, board, done_value, done_adj, k2));
                                    let (r2, c2) = choose|r2: int, c2: int|
                                        board.inside(r2, c2) && #[trigger] wall_is(
                                            pos,
                                            board,
                                            done_value,
                                            done_adj,
                                            k2,
                                            r2,
                                            c2,
                                        );
                                    assert(a2[k2] == done_adj[k2]);
                                    assert(v2[k2] == done_value[k2]);
                                    assert(wall_is(pos, board, v2, a2, k2, r2, c2));
                                } else {
                                    assert(board.inside(r as int, c as int));
                                    assert(wall_is(pos, board, v2, a2, k, r as int, c as int));
                                }
                            }
                        }
                        assert(walls_listed(pos, board, v2, a2, r as int, c + 1)) by {
                            assert forall|r2: int, c2: int|
                                board.inside(r2, c2) && (r2 < r || (r2 == r && c2 < c + 1)) && (
                                #[trigger] board.cells[r2][c2]).target() is Some implies exists|
                                k2: int,
                            | #[trigger]
                                wall_is(pos, board, v2, a2, k2, r2, c2) by {
                                if r2 == r && c2 == c {
                                    assert(wall_is(pos, board, v2, a2, k, r2, c2));
                                } else {
                                    let k2 = choose|k2: int| #[trigger]
                                        wall_is(pos, board, done_value, done_adj, k2, r2, c2);
                                    assert(a2[k2] == done_adj[k2]);
                                    assert(v2[k2] == done_value[k2]);
                                    assert(wall_is(pos, board, v2, a2, k2, r2, c2));
                                }
                            }
                        }
                    }
                } else {
                    assert(walls_listed(
                        pos,
                        board,
                        value_of(walls@),
                        adj_of(walls@),
                        r as int,
                        c + 1,
                    ));
                    assert(walls_placed(
                        pos,
                        board,
                        value_of(walls@),
                        adj_of(walls@),
                        places,
                        r as int,
                        c + 1,
                    ));
                }
                c = c + 1;
            }
            assert(walls_listed(pos, board, value_of(walls@), adj_of(walls@), r + 1, 0));
            assert(walls_placed(pos, board, value_of(walls@), adj_of(walls@), places, r + 1, 0)) by {
                assert forall|k2: int| 0 <= k2 < places.len() implies (places[k2].0 < r + 1 || (
                #[trigger] places[k2]).0 == r + 1 && places[k2].1 < 0) by {
                    assert(board.inside(places[k2].0 as int, places[k2].1 as int));
                }
            }
            r = r + 1;
        }
        (walls, near, Ghost(places))
    }

    /// For every empty cell, the cells that a light on it reaches: the
    /// cells of its row segment, then those of its column segment that are
    /// not among them.
    pub(crate) fn list_lit(
        row_seg_id: &Vec<usize>,
        col_seg_id: &Vec<usize>,
        row_segs: &Vec<Segment>,
        col_segs: &Vec<Segment>,
        n: usize,
        Ghost(pos): Ghost<Seq<(usize, usize)>>,
    ) -> (res: Vec<Vec<usize>>)
        requires
            n == pos.len(),
            cut_ok(pos, row_seg_id@, cells_of(row_segs@), true),
            cut_ok(pos, col_seg_id@, cells_of(col_segs@), false),
        ensures
            res@.len() == n,
            forall|x: int|
                0 <= x < n ==> (#[trigger] res@[x])@ == joined(
                    cells_of(row_segs@)[row_seg_id@[x] as int],
                    cells_of(col_segs@)[col_seg_id@[x] as int],
                ),
            forall|x: int|
                0 <= x < n ==> below((#[trigger] res@[x])@, n as nat) && no_dups(res@[x]@),
            forall|x: int, c: int|
                0 <= x < n && 0 <= c < n ==> (#[trigger] member(res@[x]@, c) <==> (row_seg_id@[c]
                    == row_seg_id@[x] || col_seg_id@[c] == col_seg_id@[x])),
    {
        let mut lit: Vec<Vec<usize>> = Vec::new();
        let mut id: usize = 0;
        while id < n
            invariant
                n == pos.len(),
                cut_ok(pos, row_seg_id@, cells_of(row_segs@), true),
                cut_ok(pos, col_seg_id@, cells_of(col_segs@), false),
                0 <= id <= n,
                lit@.len() == id,
                forall|x: int|
                    0 <= x < id ==> (#[trigger] lit@[x])@ == joined(
                        cells_of(row_segs@)[row_seg_id@[x] as int],
                        cells_of(col_segs@)[col_seg_id@[x] as int],
                    ),
                forall|x: int|
                    0 <= x < id ==> below((#[trigger] lit@[x])@, n as nat) && no_dups(lit@[x]@),
                forall|x: int, c: int|
                    0 <= x < id && 0 <= c < n ==> (#[trigger] member(lit@[x]@, c) <==> (
                    row_seg_id@[c] == row_seg_id@[x] || col_seg_id@[c] == col_seg_id@[x])),
            decreases n - id,
        {
            let rs = row_seg_id[id];
            let cs = col_seg_id[id];
            let ghost row = cells_of(row_segs@)[rs as int];
            let ghost col = cells_of(col_segs@)[cs as int];
            let mut list: Vec<usize> = Vec::new();
            let rows = row_segs[rs].cells.len();
            let mut j: usize = 0;
            while j < rows
                invariant
                    rs < row_segs@.len(),
                    row == row_segs@[rs as int].cells@,
                    rows == row.len(),
                    0 <= j <= rows,
                    list@ == row.take(j as int),
                decreases rows - j,
            {
                list.push(row_segs[rs].cells[j]);
                proof {
                    assert(row.take(j + 1) =~= row.take(j as int).push(row[j as int]));
                }
                j = j + 1;
            }
            proof {
                assert(row.take(rows as int) =~= row);
            }
            let cols = col_segs[cs].cells.len();
            let mut j: usize = 0;
            proof {
                assert(col.take(0) =~= Seq::<usize>::empty());
            }
            while j < cols
                invariant
                    n == pos.len(),
                    cs < col_segs@.len(),
                    col == col_segs@[cs as int].cells@,
                    below(col, n as nat),
                    below(row, n as nat),
                    no_dups(row),
                    cols == col.len(),
                    0 <= j <= cols,
                    below(list@, n as nat),
                    no_dups(list@),
                    list@ == joined(row, col.take(j as int)),
                    forall|c: int|
                        #[trigger] member(list@, c) <==> (member(row, c) || member(
                            col.take(j as int),
                            c,
                        )),
                decreases cols - j,
            {
                let x = col_segs[cs].cells[j];
                let ghost before = list@;
                proof {
                    assert(col.take(j + 1).drop_last() =~= col.take(j as int));
                    assert(col.take(j + 1).last() == x);
                }
                let seen = Self::holds(&list, x);
                proof {
                    assert(seen == member(before, x as int)) by {
                        if before.contains(x) {
                            let i = choose|i: int| 0 <= i < before.len() && before[i] == x;
                            assert(before[i] == x as int);
                        }
                        if member(before, x as int) {
                            let i = choose|i: int|
                                0 <= i < before.len() && #[trigger] before[i] == x as int;
                            assert(before[i] == x);
                        }
                    }
                }
                if !seen {
                    list.push(x);
                    proof {
                        lemma_pushed(before, x, n as nat);
                    }
                }
                proof {
                    assert forall|c: int| #[trigger]
                        member(list@, c) <==> (member(row, c) || member(col.take(j + 1), c)) by {
                        lemma_take_member(col, j as int, c);
                        assert(member(before, c) <==> (member(row, c) || member(
                            col.take(j as int),
                            c,
                        )));
                        if !seen {
                            lemma_push_member(before, x, c);
                        }
                    }
                }
                j = j + 1;
            }
            proof {
                assert(col.take(cols as int) =~= col);
                assert forall|c: int| 0 <= c < n implies (member(list@, c) <==> (row_seg_id@[c]
                    == row_seg_id@[id as int] || col_seg_id@[c] == col_seg_id@[id as int])) by {
                    assert(member(cells_of(row_segs@)[rs as int], c) <==> row_seg_id@[c] == rs);
                    assert(member(cells_of(col_segs@)[cs as int], c) <==> col_seg_id@[c] == cs);
                }
            }
            lit.push(list);
            id = id + 1;
        }
        lit
    }

    /// The state at the start of a solve: nothing is known of any cell.
    pub fn new(field: &Field) -> (core: Core)
        requires
            field.wf(),
        ensures
            core.wf(),
            core.settled(),
            core.mapped(),
            core.layout().board == field@,
            core.snapshot().trail.len() == 0,
            forall|x: int|
                0 <= x < core.layout().n ==> (#[trigger] core.snapshot().cell_state[x])
                    == CellState::Unknown,
    {
        let (empty_pos, ids) = Self::number_cells(field);
        let n_empty = empty_pos.len();
        let ghost pos = empty_pos@;
        let (row_seg_id, row_segs) = Self::cut_segments(field, &ids, n_empty, true, Ghost(pos));
        let (col_seg_id, col_segs) = Self::cut_segments(field, &ids, n_empty, false, Ghost(pos));
        let (num_cells, num_adj_of_empty, Ghost(wall_places)) = Self::list_walls(
            field,
            &ids,
            n_empty,
            Ghost(pos),
        );
        let lit_list = Self::list_lit(
            &row_seg_id,
            &col_seg_id,
            &row_segs,
            &col_segs,
            n_empty,
            Ghost(pos),
        );
        let mut lit_count: Vec<usize> = Vec::new();
        let mut cell_state: Vec<CellState> = Vec::new();
        let mut x: usize = 0;
        while x < n_empty
            invariant
                0 <= x <= n_empty,
                lit_count@.len() == x,
                cell_state@.len() == x,
                forall|y: int| 0 <= y < x ==> (#[trigger] lit_count@[y]) == 0,
                forall|y: int| 0 <= y < x ==> (#[trigger] cell_state@[y]) == CellState::Unknown,
            decreases n_empty - x,
        {
            lit_count.push(0);
            cell_state.push(CellState::Unknown);
            x = x + 1;
        }
        let core = Core {
            n_empty,
            empty_pos,
            row_seg_id,
            col_seg_id,
            row_segs,
            col_segs,
            num_cells,
            num_adj_of_empty,
            lit_list,
            lit_count,
            cell_state,
            trail: Vec::new(),
            board: Ghost(field@),
        };
        proof {
            let l = core.layout();
            let s = core.snapshot();
            lemma_numbered_placed(pos, ids@, field@);
            assert(l.row_cells =~= cells_of(core.row_segs@));
            assert(l.col_cells =~= cells_of(core.col_segs@));
            assert(l.num_value =~= value_of(core.num_cells@));
            assert(l.num_adj =~= adj_of(core.num_cells@));
            assert(l.num_adj_of_empty =~= lists_of(core.num_adj_of_empty@));
            assert(walls_in_order(l, field@)) by {
                assert(walls_placed(
                    l.empty_pos,
                    field@,
                    l.num_value,
                    l.num_adj,
                    wall_places,
                    field@.h as int,
                    0,
                ));
            }
            assert forall|x: int| 0 <= x < l.n implies (#[trigger] l.lit_list[x]) == joined(
                l.row_cells[l.row_seg_id[x] as int],
                l.col_cells[l.col_seg_id[x] as int],
            ) by {
                assert(l.lit_list[x] == core.lit_list@[x]@);
                assert(l.row_seg_id[x] < l.row_cells.len());
                assert(l.col_seg_id[x] < l.col_cells.len());
            }
            assert(layout_ok(l)) by {
                assert forall|x: int| 0 <= x < l.n implies below(#[trigger] l.lit_list[x], l.n)
                    && no_dups(l.lit_list[x]) by {
                    assert(l.lit_list[x] == core.lit_list@[x]@);
                }
                assert forall|x: int, c: int| 0 <= x < l.n && 0 <= c < l.n implies (
                #[trigger] member(l.lit_list[x], c) <==> (l.row_seg_id[c] == l.row_seg_id[x]
                    || l.col_seg_id[c] == l.col_seg_id[x])) by {
                    assert(l.lit_list[x] == core.lit_list@[x]@);
                    assert(member(core.lit_list@[x]@, c) <==> (l.row_seg_id[c] == l.row_seg_id[x]
                        || l.col_seg_id[c] == l.col_seg_id[x]));
                }
            }
            assert(counts_ok(l, s)) by {
                assert forall|g: int| 0 <= g < l.row_cells.len() implies (#[trigger] s.row_free[g])
                    + count_in(l.row_cells[g], s.cell_state, CellState::Blocked)
                    == l.row_cells[g].len() by {
                    lemma_count_fresh(l.row_cells[g], s.cell_state);
                    assert(core.row_segs@[g].free_cnt == core.row_segs@[g].cells@.len());
                }
                assert forall|g: int| 0 <= g < l.col_cells.len() implies (#[trigger] s.col_free[g])
                    + count_in(l.col_cells[g], s.cell_state, CellState::Blocked)
                    == l.col_cells[g].len() by {
                    lemma_count_fresh(l.col_cells[g], s.cell_state);
                    assert(core.col_segs@[g].free_cnt == core.col_segs@[g].cells@.len());
                }
                assert forall|k: int| 0 <= k < l.num_adj.len() implies (#[trigger] s.num_on[k])
                    == count_in(l.num_adj[k], s.cell_state, CellState::Light) by {
                    lemma_count_fresh(l.num_adj[k], s.cell_state);
                    assert(core.num_cells@[k].on == 0);
                }
                assert forall|k: int| 0 <= k < l.num_adj.len() implies (#[trigger] s.num_unk[k])
                    == count_in(l.num_adj[k], s.cell_state, CellState::Unknown) by {
                    lemma_count_fresh(l.num_adj[k], s.cell_state);
                    assert(core.num_cells@[k].unk == core.num_cells@[k].adj@.len());
                }
                assert forall|x: int| 0 <= x < l.n implies (#[trigger] s.lit_count[x]) == count_in(
                    l.lit_list[x],
                    s.cell_state,
                    CellState::Light,
                ) by {
                    lemma_count_fresh(l.lit_list[x], s.cell_state);
                }
            }
            assert(lights_ok(l, s)) by {
                assert forall|g: int| 0 <= g < l.row_cells.len() implies (#[trigger] s.row_light[g])
                    is None by {
                    assert(core.row_segs@[g].light is None);
                }
                assert forall|g: int| 0 <= g < l.col_cells.len() implies (#[trigger] s.col_light[g])
                    is None by {
                    assert(core.col_segs@[g].light is None);
                }
            }
        }
        core
    }
}

} // verus!
