//! What the constraint-first searches come to, step by step: the choices
//! around a numbered wall, the list of states that settling the walls
//! leads to, and the placement that the search finds.

use vstd::prelude::*;
use crate::field::{Board, Solution, State};
use crate::solver::cfs::{finds_candidate, has_candidate, is_choice, lex_before, passable, stuck};
use crate::solver::keep::{grid_of, put_model, settle_model};
use crate::solver::{fill_sized, solves, Cell, TempFill};
use crate::utility::{direction, moved};

verus! {

/// `list` holds every way to pick `k` of the four directions once, each in
/// the order of the directions, the ways in dictionary order.
pub open spec fn lists_choices(list: Seq<Seq<usize>>, k: nat) -> bool {
    &&& forall|i: int| 0 <= i < list.len() ==> is_choice(#[trigger] list[i], 4, k)
    &&& forall|i: int, j: int|
        0 <= i < j < list.len() ==> lex_before(#[trigger] list[i], #[trigger] list[j])
    &&& forall|c: Seq<usize>|
        is_choice(c, 4, k) ==> exists|i: int| 0 <= i < list.len() && #[trigger] list[i] == c
}

/// The ways to pick `k` of the four directions, in dictionary order: the
/// list of which `lists_choices` holds. There is one such list only
/// (`lemma_one_list`).
pub open spec fn choices(k: nat) -> Seq<Seq<usize>> {
    choose|list: Seq<Seq<usize>>| lists_choices(list, k)
}

/// The picks of a list of vectors.
pub open spec fn picks_of(list: Seq<Vec<usize>>) -> Seq<Seq<usize>> {
    Seq::new(list.len(), |i: int| list[i]@)
}

/// Dictionary order goes one way only.
pub proof fn lemma_lex_one_way(a: Seq<usize>, b: Seq<usize>)
    requires
        lex_before(a, b),
    ensures
        !lex_before(b, a),
        a != b,
{
    let p = choose|p: int|
        0 <= p < a.len() && p < b.len() && a[p] < #[trigger] b[p] && forall|q: int|
            0 <= q < p ==> a[q] == b[q];
    if lex_before(b, a) {
        let q = choose|q: int|
            0 <= q < b.len() && q < a.len() && b[q] < #[trigger] a[q] && forall|x: int|
                0 <= x < q ==> b[x] == a[x];
        if p < q {
            assert(b[p] == a[p]);
        } else if q < p {
            assert(a[q] == b[q]);
        }
        assert(false);
    }
}

/// A place of the pick `c` in the list `a`.
pub open spec fn place(a: Seq<Seq<usize>>, c: Seq<usize>) -> int {
    choose|i: int| 0 <= i < a.len() && #[trigger] a[i] == c
}

/// Every pick of one list has its place in the other.
proof fn lemma_place(a: Seq<Seq<usize>>, b: Seq<Seq<usize>>, k: nat, j: int)
    requires
        lists_choices(a, k),
        lists_choices(b, k),
        0 <= j < b.len(),
    ensures
        0 <= place(a, b[j]) < a.len(),
        a[place(a, b[j])] == b[j],
{
    assert(is_choice(b[j], 4, k));
}

/// The places rise with the picks.
proof fn lemma_place_rises(a: Seq<Seq<usize>>, b: Seq<Seq<usize>>, k: nat, j: int)
    requires
        lists_choices(a, k),
        lists_choices(b, k),
        0 <= j,
        j + 1 < b.len(),
    ensures
        place(a, b[j]) < place(a, b[j + 1]),
{
    lemma_place(a, b, k, j);
    lemma_place(a, b, k, j + 1);
    assert(lex_before(b[j], b[j + 1]));
    lemma_lex_one_way(b[j], b[j + 1]);
    let x = place(a, b[j]);
    let y = place(a, b[j + 1]);
    if y < x {
        assert(lex_before(a[y], a[x]));
    }
}

/// A pick's place is not before its own number.
proof fn lemma_place_low(a: Seq<Seq<usize>>, b: Seq<Seq<usize>>, k: nat, j: int)
    requires
        lists_choices(a, k),
        lists_choices(b, k),
        0 <= j < b.len(),
    ensures
        place(a, b[j]) >= j,
    decreases j,
{
    lemma_place(a, b, k, j);
    if j > 0 {
        lemma_place_low(a, b, k, j - 1);
        lemma_place_rises(a, b, k, j - 1);
    }
}

/// In lists of one length, a pick's place is not after its own number.
proof fn lemma_place_high(a: Seq<Seq<usize>>, b: Seq<Seq<usize>>, k: nat, j: int)
    requires
        lists_choices(a, k),
        lists_choices(b, k),
        a.len() == b.len(),
        0 <= j < b.len(),
    ensures
        place(a, b[j]) <= j,
    decreases b.len() - j,
{
    lemma_place(a, b, k, j);
    if j + 1 < b.len() {
        lemma_place_high(a, b, k, j + 1);
        lemma_place_rises(a, b, k, j);
    }
}

/// There is one list of the choices only.
pub proof fn lemma_one_list(a: Seq<Seq<usize>>, b: Seq<Seq<usize>>, k: nat)
    requires
        lists_choices(a, k),
        lists_choices(b, k),
    ensures
        a == b,
{
    if b.len() > 0 {
        lemma_place_low(a, b, k, b.len() - 1);
        lemma_place(a, b, k, b.len() - 1);
    }
    if a.len() > 0 {
        lemma_place_low(b, a, k, a.len() - 1);
        lemma_place(b, a, k, a.len() - 1);
    }
    assert(a.len() == b.len());
    assert forall|j: int| 0 <= j < a.len() implies a[j] == b[j] by {
        lemma_place_low(a, b, k, j);
        lemma_place_high(a, b, k, j);
        lemma_place(a, b, k, j);
    }
    assert(a =~= b);
}

/// A list with the three properties is the list of the choices.
pub proof fn lemma_is_choices(list: Seq<Seq<usize>>, k: nat)
    requires
        lists_choices(list, k),
    ensures
        list == choices(k),
        lists_choices(choices(k), k),
{
    lemma_one_list(list, choices(k), k);
}

/// The walk over the grid from `(r, c)` in direction `d` passes `k` cells
/// without meeting a wall.
pub open spec fn open_way(
    g: Seq<Seq<Cell>>,
    board: Board,
    r: int,
    c: int,
    d: (usize, usize),
    k: int,
) -> bool {
    forall|j: int|
        #![trigger moved(r, c, d, j)]
        1 <= j <= k ==> board.inside(moved(r, c, d, j).0, moved(r, c, d, j).1) && g[moved(
            r,
            c,
            d,
            j,
        ).0][moved(r, c, d, j).1] != Cell::Nil
}

/// Some cell that could shine on `(r, c)` may still get a light.
pub open spec fn hope_at(g: Seq<Seq<Cell>>, board: Board, r: int, c: int) -> bool {
    exists|i: int, k: int|
        0 <= i < 4 && k >= 1 && open_way(g, board, r, c, direction(i), k) && g[moved(
            r,
            c,
            direction(i),
            k,
        ).0][#[trigger] moved(r, c, direction(i), k).1] == Cell::Fillable
}

/// Some dark cell of the grid may not get a light, and no cell that could
/// shine on it may.
pub open spec fn hopeless(board: Board, g: Seq<Seq<Cell>>) -> bool {
    exists|r: int, c: int|
        board.inside(r, c) && (#[trigger] g[r][c]) == Cell::Unfillable(false) && !hope_at(
            g,
            board,
            r,
            c,
        )
}

/// A grid is without hope exactly when the state it was taken from holds a stuck cell.
pub proof fn lemma_hopeless(board: Board, fill: Seq<Vec<Cell>>)
    requires
        fill_sized(fill, board),
    ensures
        hopeless(board, grid_of(fill)) == (exists|r: int, c: int|
            board.inside(r, c) && stuck(fill, board, r, c)),
{
    let g = grid_of(fill);
    assert forall|x: int, y: int| board.inside(x, y) implies (#[trigger] g[x][y]) == fill[x]@[y] by {}
    assert forall|r: int, c: int, i: int, k: int|
        board.inside(r, c) && 0 <= i < 4 implies (#[trigger] passable(
        fill,
        board,
        r,
        c,
        direction(i),
        k,
    )) == open_way(g, board, r, c, direction(i), k) by {
        let d = direction(i);
        if passable(fill, board, r, c, d, k) {
            assert forall|j: int| #![trigger moved(r, c, d, j)] 1 <= j <= k implies board.inside(
                moved(r, c, d, j).0,
                moved(r, c, d, j).1,
            ) && g[moved(r, c, d, j).0][moved(r, c, d, j).1] != Cell::Nil by {
                let m = moved(r, c, d, j);
                assert(board.inside(m.0, m.1));
                assert(g[m.0][m.1] == fill[m.0]@[m.1]);
            }
        }
        if open_way(g, board, r, c, d, k) {
            assert forall|j: int| #![trigger moved(r, c, d, j)] 1 <= j <= k implies board.inside(
                moved(r, c, d, j).0,
                moved(r, c, d, j).1,
            ) && fill[moved(r, c, d, j).0]@[moved(r, c, d, j).1] != Cell::Nil by {
                let m = moved(r, c, d, j);
                assert(board.inside(m.0, m.1));
                assert(g[m.0][m.1] == fill[m.0]@[m.1]);
            }
        }
    }
    assert forall|r: int, c: int| board.inside(r, c) implies has_candidate(fill, board, r, c)
        == hope_at(g, board, r, c) by {
        if has_candidate(fill, board, r, c) {
            let (i, k) = choose|i: int, k: int|
                0 <= i < 4 && finds_candidate(fill, board, r, c, direction(i), k);
            assert(passable(fill, board, r, c, direction(i), k));
            let m = moved(r, c, direction(i), k);
            assert(board.inside(m.0, m.1));
            assert(g[m.0][m.1] == fill[m.0]@[m.1]);
            assert(open_way(g, board, r, c, direction(i), k));
        }
        if hope_at(g, board, r, c) {
            let (i, k) = choose|i: int, k: int|
                0 <= i < 4 && k >= 1 && open_way(g, board, r, c, direction(i), k) && g[moved(
                    r,
                    c,
                    direction(i),
                    k,
                ).0][#[trigger] moved(r, c, direction(i), k).1] == Cell::Fillable;
            let m = moved(r, c, direction(i), k);
            assert(board.inside(m.0, m.1));
            assert(g[m.0][m.1] == fill[m.0]@[m.1]);
            assert(passable(fill, board, r, c, direction(i), k));
            assert(finds_candidate(fill, board, r, c, direction(i), k));
        }
    }
    if hopeless(board, g) {
        let (r, c) = choose|r: int, c: int|
            board.inside(r, c) && (#[trigger] g[r][c]) == Cell::Unfillable(false) && !hope_at(
                g,
                board,
                r,
                c,
            );
        assert(g[r][c] == fill[r]@[c]);
        assert(stuck(fill, board, r, c));
    }
    if exists|r: int, c: int| board.inside(r, c) && stuck(fill, board, r, c) {
        let (r, c) = choose|r: int, c: int| board.inside(r, c) && stuck(fill, board, r, c);
        assert(g[r][c] == fill[r]@[c]);
        assert(!hope_at(g, board, r, c));
    }
}

/// The states of a list, each as its lights and its grid.
pub open spec fn listed(ways: Seq<(Solution, TempFill)>) -> Seq<(Seq<Seq<bool>>, Seq<Seq<Cell>>)> {
    Seq::new(ways.len(), |i: int| (ways[i].0@, grid_of(ways[i].1@)))
}

/// The states that the first `p` choices for the wall `walls[from]` lead
/// to, each followed through the walls after it.
pub open spec fn ways_upto(
    board: Board,
    walls: Seq<(usize, usize)>,
    from: int,
    lights: Seq<Seq<bool>>,
    g: Seq<Seq<Cell>>,
    p: int,
) -> Seq<(Seq<Seq<bool>>, Seq<Seq<Cell>>)>
    decreases walls.len() - from, p,
{
    if from < 0 || from >= walls.len() || p <= 0 {
        Seq::empty()
    } else {
        let wall = walls[from];
        let number = board.cells[wall.0 as int][wall.1 as int].target();
        let pick = choices(number->Some_0)[p - 1];
        let before = ways_upto(board, walls, from, lights, g, p - 1);
        match settle_model(board, lights, g, wall.0 as int, wall.1 as int, pick) {
            None => before,
            Some((l, g2)) => before + ways_from(board, walls, from + 1, l, g2),
        }
    }
}

/// The states that settling the walls from `from` on leads to: the given
/// state alone where no wall is left; none where the grid is without
/// hope; else what each choice for the next wall leads to, the choices
/// in dictionary order.
pub open spec fn ways_from(
    board: Board,
    walls: Seq<(usize, usize)>,
    from: int,
    lights: Seq<Seq<bool>>,
    g: Seq<Seq<Cell>>,
) -> Seq<(Seq<Seq<bool>>, Seq<Seq<Cell>>)>
    decreases walls.len() - from, choices(
        board.cells[walls[from].0 as int][walls[from].1 as int].target()->Some_0,
    ).len() + 1,
{
    if from < 0 || from >= walls.len() {
        seq![(lights, g)]
    } else if hopeless(board, g) {
        Seq::empty()
    } else {
        let wall = walls[from];
        let number = board.cells[wall.0 as int][wall.1 as int].target();
        if number is None {
            Seq::empty()
        } else {
            ways_upto(board, walls, from, lights, g, choices(number->Some_0).len() as int)
        }
    }
}


/// The grid with no light allowed on `(r, c)`.
pub open spec fn shut(g: Seq<Seq<Cell>>, r: int, c: int) -> Seq<Seq<Cell>> {
    if g[r][c] == Cell::Fillable {
        g.update(r, g[r].update(c, Cell::Unfillable(false)))
    } else {
        g
    }
}

/// The placement that is found, if one is.
pub open spec fn seen(found: Option<Solution>) -> Option<Seq<Seq<bool>>> {
    match found {
        Some(s) => Some(s@),
        None => None,
    }
}

/// The walls that are left to settle from `from` on.
pub open spec fn walls_left(walls: Seq<(usize, usize)>, from: int) -> int {
    if 0 <= from < walls.len() {
        walls.len() - from
    } else {
        0
    }
}

/// The number on the wall `walls[from]`.
pub open spec fn number_at(board: Board, walls: Seq<(usize, usize)>, from: int) -> Option<nat> {
    board.cells[walls[from].0 as int][walls[from].1 as int].target()
}

/// What the search finds through the first `p` choices for the wall
/// `walls[from]`: what the first of them that leads to a solution leads to.
pub open spec fn search_upto(
    board: Board,
    walls: Seq<(usize, usize)>,
    from: int,
    pos: int,
    lights: Seq<Seq<bool>>,
    g: Seq<Seq<Cell>>,
    p: int,
) -> Option<Seq<Seq<bool>>>
    decreases walls_left(walls, from), board.h * board.w - pos, p,
{
    if !(0 <= from < walls.len()) || p <= 0 {
        None
    } else {
        let before = search_upto(board, walls, from, pos, lights, g, p - 1);
        let pick = choices(number_at(board, walls, from)->Some_0)[p - 1];
        if before is Some {
            before
        } else {
            match settle_model(
                board,
                lights,
                g,
                walls[from].0 as int,
                walls[from].1 as int,
                pick,
            ) {
                None => None,
                Some((l, g2)) => search(board, walls, from + 1, pos, l, g2),
            }
        }
    }
}

/// What the search finds from a state, with the walls from `from` on and
/// the cells from place `pos` on still to go. After the last cell the
/// placement is judged. A grid without hope is given up. While walls are
/// left, the next one is settled by each choice in turn. After that the
/// next cell is tried with a light, then without.
pub open spec fn search(
    board: Board,
    walls: Seq<(usize, usize)>,
    from: int,
    pos: int,
    lights: Seq<Seq<bool>>,
    g: Seq<Seq<Cell>>,
) -> Option<Seq<Seq<bool>>>
    decreases walls_left(walls, from), board.h * board.w - pos, choices(
        number_at(board, walls, from)->Some_0,
    ).len() + 1,
{
    if pos < 0 || pos >= board.h * board.w {
        if solves(board, lights) {
            Some(lights)
        } else {
            None
        }
    } else if hopeless(board, g) {
        None
    } else if 0 <= from < walls.len() {
        if number_at(board, walls, from) is None {
            None
        } else {
            search_upto(
                board,
                walls,
                from,
                pos,
                lights,
                g,
                choices(number_at(board, walls, from)->Some_0).len() as int,
            )
        }
    } else {
        let r = pos / (board.w as int);
        let c = pos % (board.w as int);
        let lit = if g[r][c] == Cell::Fillable {
            match put_model(board, lights, g, r, c) {
                Some((l2, g2)) => search(board, walls, from, pos + 1, l2, g2),
                None => None,
            }
        } else {
            None
        };
        if lit is Some {
            lit
        } else {
            search(board, walls, from, pos + 1, lights, shut(g, r, c))
        }
    }
}


/// The numbered walls among the first `c` cells of row `r`, from left to right.
pub open spec fn row_walls(board: Board, r: int, c: int) -> Seq<(usize, usize)>
    decreases c,
{
    if c <= 0 {
        Seq::empty()
    } else if board.cells[r][c - 1].target() is Some {
        row_walls(board, r, c - 1).push((r as usize, (c - 1) as usize))
    } else {
        row_walls(board, r, c - 1)
    }
}

/// The numbered walls of the first `r` rows, row after row.
pub open spec fn walls_upto(board: Board, r: int) -> Seq<(usize, usize)>
    decreases r,
{
    if r <= 0 {
        Seq::empty()
    } else {
        walls_upto(board, r - 1) + row_walls(board, r - 1, board.w as int)
    }
}

/// The numbered walls of the board in row-major order.
pub open spec fn walls_of(board: Board) -> Seq<(usize, usize)> {
    walls_upto(board, board.h as int)
}

/// The grid before any decision: every empty cell may get a light.
pub open spec fn open_grid(board: Board) -> Seq<Seq<Cell>> {
    Seq::new(
        board.h,
        |x: int|
            Seq::new(
                board.w,
                |y: int|
                    if board.cells[x][y] == State::Empty {
                        Cell::Fillable
                    } else {
                        Cell::Nil
                    },
            ),
    )
}

/// The placement without a light.
pub open spec fn dark(board: Board) -> Seq<Seq<bool>> {
    Seq::new(board.h, |x: int| Seq::new(board.w, |y: int| false))
}

/// What the constraint-first search finds on a board when time does not
/// run out: the walls first, in row-major order, then the cells.
pub open spec fn found_on(board: Board) -> Option<Seq<Seq<bool>>> {
    search(board, walls_of(board), 0, 0, dark(board), open_grid(board))
}


/// What the search through the cells from place `pos` on finds, with no
/// wall left to settle.
pub open spec fn cell_search(
    board: Board,
    pos: int,
    lights: Seq<Seq<bool>>,
    g: Seq<Seq<Cell>>,
) -> Option<Seq<Seq<bool>>> {
    search(board, Seq::empty(), 0, pos, lights, g)
}

/// What the first of the first `n` states that leads to a solution leads to.
pub open spec fn first_found(
    board: Board,
    ways: Seq<(Seq<Seq<bool>>, Seq<Seq<Cell>>)>,
    n: int,
) -> Option<Seq<Seq<bool>>>
    decreases n,
{
    if n <= 0 {
        None
    } else if first_found(board, ways, n - 1) is Some {
        first_found(board, ways, n - 1)
    } else {
        cell_search(board, 0, ways[n - 1].0, ways[n - 1].1)
    }
}

/// What was found among the first states is what is found among more of them.
pub proof fn lemma_first_stays(
    board: Board,
    ways: Seq<(Seq<Seq<bool>>, Seq<Seq<Cell>>)>,
    n: int,
    m: int,
)
    requires
        0 <= n <= m,
        first_found(board, ways, n) is Some,
    ensures
        first_found(board, ways, m) == first_found(board, ways, n),
    decreases m - n,
{
    if n < m {
        lemma_first_stays(board, ways, n, m - 1);
    }
}

/// What the search in two stages finds on a board: every way to settle
/// the walls is listed, then the cells are searched from each in turn.
pub open spec fn staged_on(board: Board) -> Option<Seq<Seq<bool>>> {
    first_found(
        board,
        ways_from(board, walls_of(board), 0, dark(board), open_grid(board)),
        ways_from(board, walls_of(board), 0, dark(board), open_grid(board)).len() as int,
    )
}

} // verus!
