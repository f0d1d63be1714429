//! Solutions that a state of the constraint-first search can still reach:
//! what the tentative state says of the lights put so far, and why the
//! steps of the search keep the solutions they should keep.

use vstd::prelude::*;
use crate::field::{fits, Board};
use crate::solver::cfs::{
    finds_candidate, glare, has_candidate, passable, shone, stuck, walk_covers, walk_hits,
};
use crate::solver::naive::{ahead, lemma_all_ahead, lemma_sees_more};
use crate::solver::{
    fill_sized, light_at, lit, miscounted, open_run, opposite, sees, sees_any, solves, with_light,
    Cell,
};
use crate::utility::{direction, moved};

verus! {

/// No light of the placement shines on another.
pub open spec fn calm(board: Board, lights: Seq<Seq<bool>>) -> bool {
    forall|x: int, y: int|
        board.inside(x, y) && #[trigger] lights[x][y] ==> !sees_any(board, lights, x, y)
}

/// `(x, y)` is one step from `(r, c)`.
pub open spec fn next_to(r: int, c: int, x: int, y: int) -> bool {
    exists|j: int| 0 <= j < 4 && #[trigger] moved(r, c, direction(j), 1) == (x, y)
}

/// `(x, y)` is one step from one of the walls from `from` on.
pub open spec fn beside_wall(walls: Seq<(usize, usize)>, from: int, x: int, y: int) -> bool {
    exists|i: int|
        from <= i < walls.len() && next_to(
            (#[trigger] walls[i]).0 as int,
            walls[i].1 as int,
            x,
            y,
        )
}

/// The tentative state fits the lights put so far: walls, and only walls,
/// are marked as such; lights stand on empty cells; no light shines on
/// another; and exactly the lit empty cells are marked as lit.
pub open spec fn tame(board: Board, lights: Seq<Seq<bool>>, fill: Seq<Vec<Cell>>) -> bool {
    &&& calm(board, lights)
    &&& fits(lights, board)
    &&& fill_sized(fill, board)
    &&& forall|x: int, y: int|
        board.inside(x, y) ==> ((#[trigger] fill[x]@[y]) == Cell::Nil <==> !board.open_at(x, y))
    &&& forall|x: int, y: int| board.inside(x, y) && #[trigger] lights[x][y] ==> board.open_at(x, y)
    &&& forall|x: int, y: int|
        board.inside(x, y) ==> ((#[trigger] fill[x]@[y]) == Cell::Unfillable(true) <==> (
        board.open_at(x, y) && lit(board, lights, x, y)))
}

/// The solution `goal` can still be reached: it has every light put so
/// far, and every other light of it stands on a cell that may still get one.
pub open spec fn keeps(
    board: Board,
    lights: Seq<Seq<bool>>,
    fill: Seq<Vec<Cell>>,
    goal: Seq<Seq<bool>>,
) -> bool {
    &&& solves(board, goal)
    &&& forall|x: int, y: int|
        board.inside(x, y) ==> ((#[trigger] lights[x][y]) ==> goal[x][y]) && (goal[x][y]
            ==> lights[x][y] || fill[x]@[y] == Cell::Fillable)
}

/// No cell before place `pos` may still get a light.
pub open spec fn decided(board: Board, fill: Seq<Vec<Cell>>, pos: int) -> bool {
    forall|x: int, y: int|
        board.inside(x, y) && ahead(board, x, y, pos) ==> (#[trigger] fill[x]@[y]) != Cell::Fillable
}

/// No cell that may not get a light in `a` may get one in `b`.
pub open spec fn narrowed(board: Board, a: Seq<Vec<Cell>>, b: Seq<Vec<Cell>>) -> bool {
    forall|x: int, y: int|
        board.inside(x, y) && (#[trigger] b[x]@[y]) == Cell::Fillable ==> a[x]@[y] == Cell::Fillable
}

/// No neighbour of `(r, c)` may still get a light.
pub open spec fn closed_around(board: Board, fill: Seq<Vec<Cell>>, r: int, c: int) -> bool {
    forall|j: int|
        #![trigger moved(r, c, direction(j), 1)]
        0 <= j < 4 && board.inside(moved(r, c, direction(j), 1).0, moved(r, c, direction(j), 1).1)
            ==> fill[moved(r, c, direction(j), 1).0]@[moved(r, c, direction(j), 1).1]
            != Cell::Fillable
}

/// Every light of `a` is a light of `b`.
pub open spec fn grown(board: Board, a: Seq<Seq<bool>>, b: Seq<Seq<bool>>) -> bool {
    forall|x: int, y: int| board.inside(x, y) && #[trigger] a[x][y] ==> b[x][y]
}

/// What is closed stays closed when the state is narrowed.
pub proof fn lemma_closed_kept(board: Board, a: Seq<Vec<Cell>>, b: Seq<Vec<Cell>>, r: int, c: int)
    requires
        closed_around(board, a, r, c),
        narrowed(board, a, b),
    ensures
        closed_around(board, b, r, c),
{
    assert forall|j: int|
        #![trigger moved(r, c, direction(j), 1)]
        0 <= j < 4 && board.inside(
            moved(r, c, direction(j), 1).0,
            moved(r, c, direction(j), 1).1,
        ) implies b[moved(r, c, direction(j), 1).0]@[moved(r, c, direction(j), 1).1]
        != Cell::Fillable by {
        let m = moved(r, c, direction(j), 1);
        if b[m.0]@[m.1] == Cell::Fillable {
            assert(a[m.0]@[m.1] == Cell::Fillable);
        }
    }
}

/// Narrowing what was narrowed is narrowing.
pub proof fn lemma_narrowed_chain(board: Board, a: Seq<Vec<Cell>>, b: Seq<Vec<Cell>>, c: Seq<Vec<Cell>>)
    requires
        narrowed(board, a, b),
        narrowed(board, b, c),
    ensures
        narrowed(board, a, c),
{
    assert forall|x: int, y: int|
        board.inside(x, y) && (#[trigger] c[x]@[y]) == Cell::Fillable implies a[x]@[y]
        == Cell::Fillable by {
        assert(b[x]@[y] == Cell::Fillable);
    }
}

/// The walk from `(r, c)` in the `i`-th direction is at `(x, y)` after `k`
/// steps over empty cells.
pub open spec fn reaches(board: Board, r: int, c: int, x: int, y: int, i: int, k: int) -> bool {
    &&& 0 <= i < 4
    &&& k >= 1
    &&& open_run(board, r, c, direction(i), k)
    &&& moved(r, c, direction(i), k) == (x, y)
}

/// The directions among the first `i` in which the neighbour of `(r, c)` holds a light.
pub open spec fn wanted_upto(board: Board, goal: Seq<Seq<bool>>, r: int, c: int, i: int) -> Seq<usize>
    decreases i,
{
    if i <= 0 {
        Seq::empty()
    } else {
        let before = wanted_upto(board, goal, r, c, i - 1);
        if light_at(
            board,
            goal,
            moved(r, c, direction(i - 1), 1).0,
            moved(r, c, direction(i - 1), 1).1,
        ) {
            before.push((i - 1) as usize)
        } else {
            before
        }
    }
}

/// The directions in which the neighbour of `(r, c)` holds a light.
pub open spec fn wanted(board: Board, goal: Seq<Seq<bool>>, r: int, c: int) -> Seq<usize> {
    wanted_upto(board, goal, r, c, 4)
}

/// Where walls are marked as such, a walk passes what is open.
pub proof fn lemma_passable_open(
    board: Board,
    lights: Seq<Seq<bool>>,
    fill: Seq<Vec<Cell>>,
    r: int,
    c: int,
    d: (usize, usize),
    k: int,
)
    requires
        tame(board, lights, fill),
    ensures
        passable(fill, board, r, c, d, k) == open_run(board, r, c, d, k),
{
    if passable(fill, board, r, c, d, k) {
        assert forall|j: int| 1 <= j <= k implies board.open_at(
            (#[trigger] moved(r, c, d, j)).0,
            moved(r, c, d, j).1,
        ) by {
            let m = moved(r, c, d, j);
            assert(board.inside(m.0, m.1) && fill[m.0]@[m.1] != Cell::Nil);
        }
    }
    if open_run(board, r, c, d, k) {
        assert forall|j: int|
            #![trigger moved(r, c, d, j)]
            1 <= j <= k implies board.inside(moved(r, c, d, j).0, moved(r, c, d, j).1)
            && fill[moved(r, c, d, j).0]@[moved(r, c, d, j).1] != Cell::Nil by {
            let m = moved(r, c, d, j);
            assert(board.open_at(m.0, m.1));
        }
    }
}

/// A light would shine on another exactly when its cell sees one.
pub proof fn lemma_glare_sees(
    board: Board,
    lights: Seq<Seq<bool>>,
    fill: Seq<Vec<Cell>>,
    r: int,
    c: int,
)
    requires
        tame(board, lights, fill),
    ensures
        glare(fill, lights, board, r, c) == sees_any(board, lights, r, c),
{
    if glare(fill, lights, board, r, c) {
        let (i, k) = choose|i: int, k: int|
            0 <= i < 4 && walk_hits(fill, lights, board, r, c, direction(i), k);
        lemma_passable_open(board, lights, fill, r, c, direction(i), k - 1);
        assert(sees(board, lights, r, c, direction(i), k));
    }
    if sees_any(board, lights, r, c) {
        let (i, k) = choose|i: int, k: int|
            0 <= i < 4 && sees(board, lights, r, c, direction(i), k);
        lemma_passable_open(board, lights, fill, r, c, direction(i), k - 1);
        assert(walk_hits(fill, lights, board, r, c, direction(i), k));
    }
}

/// What a light on `(r, c)` shines on is its own cell and what the walks from it reach.
pub proof fn lemma_shone_reaches(
    board: Board,
    lights: Seq<Seq<bool>>,
    fill: Seq<Vec<Cell>>,
    r: int,
    c: int,
    x: int,
    y: int,
)
    requires
        tame(board, lights, fill),
    ensures
        shone(fill, board, r, c, x, y) == ((x == r && y == c) || exists|i: int, k: int|
            reaches(board, r, c, x, y, i, k)),
{
    if shone(fill, board, r, c, x, y) && !(x == r && y == c) {
        let (i, k) = choose|i: int, k: int|
            0 <= i < 4 && #[trigger] walk_covers(fill, board, r, c, direction(i), k, x, y) && (i < 4
                || (i == 4 && k <= 0));
        lemma_passable_open(board, lights, fill, r, c, direction(i), k);
        assert(reaches(board, r, c, x, y, i, k));
    }
    if exists|i: int, k: int| reaches(board, r, c, x, y, i, k) {
        let (i, k) = choose|i: int, k: int| reaches(board, r, c, x, y, i, k);
        lemma_passable_open(board, lights, fill, r, c, direction(i), k);
        assert(walk_covers(fill, board, r, c, direction(i), k, x, y));
    }
}

/// An empty cell that a walk from `(r, c)` reaches sees `(r, c)`, and the other way round.
pub proof fn lemma_reach_back(
    board: Board,
    lights: Seq<Seq<bool>>,
    r: int,
    c: int,
    x: int,
    y: int,
    i: int,
    k: int,
)
    requires
        0 <= i < 4,
        k >= 1,
        board.inside(r, c),
        lights[r][c],
    ensures
        reaches(board, r, c, x, y, i, k) ==> sees(board, lights, x, y, direction(opposite(i)), k),
        board.open_at(x, y) && sees(board, lights, x, y, direction(i), k) && moved(
            x,
            y,
            direction(i),
            k,
        ) == (r, c) ==> reaches(board, r, c, x, y, opposite(i), k),
{
    let d = direction(i);
    let back = direction(opposite(i));
    if reaches(board, r, c, x, y, i, k) {
        assert forall|j: int| 1 <= j <= k - 1 implies board.open_at(
            (#[trigger] moved(x, y, back, j)).0,
            moved(x, y, back, j).1,
        ) by {
            assert(moved(x, y, back, j) == moved(r, c, d, k - j));
            assert(board.open_at(moved(r, c, d, k - j).0, moved(r, c, d, k - j).1));
        }
        assert(moved(x, y, back, k) == (r, c));
    }
    if board.open_at(x, y) && sees(board, lights, x, y, d, k) && moved(x, y, d, k) == (r, c) {
        assert forall|j: int| 1 <= j <= k implies board.open_at(
            (#[trigger] moved(r, c, back, j)).0,
            moved(r, c, back, j).1,
        ) by {
            assert(moved(r, c, back, j) == moved(x, y, d, k - j));
            if j < k {
                assert(board.open_at(moved(x, y, d, k - j).0, moved(x, y, d, k - j).1));
            }
        }
        assert(moved(r, c, back, k) == (x, y));
    }
}

/// The state after a light is put on a cell that could get one fits the lights.
pub proof fn lemma_put_tame(
    board: Board,
    lights: Seq<Seq<bool>>,
    fill: Seq<Vec<Cell>>,
    after: Seq<Vec<Cell>>,
    r: int,
    c: int,
)
    requires
        board.wf(),
        tame(board, lights, fill),
        board.inside(r, c),
        fill[r]@[c] == Cell::Fillable,
        !glare(fill, lights, board, r, c),
        fill_sized(after, board),
        forall|x: int, y: int|
            board.inside(x, y) ==> (#[trigger] after[x]@[y]) == (if shone(fill, board, r, c, x, y) {
                Cell::Unfillable(true)
            } else {
                fill[x]@[y]
            }),
    ensures
        tame(board, with_light(lights, r, c), after),
        narrowed(board, fill, after),
{
    let more = with_light(lights, r, c);
    assert(lights[r].len() == board.w);
    lemma_glare_sees(board, lights, fill, r, c);
    assert(calm(board, more)) by {
        assert forall|x: int, y: int| board.inside(x, y) && #[trigger] more[x][y] implies !sees_any(
            board,
            more,
            x,
            y,
        ) by {
            assert(lights[x].len() == board.w);
            if sees_any(board, more, x, y) {
                let (i, k) = choose|i: int, k: int|
                    0 <= i < 4 && sees(board, more, x, y, direction(i), k);
                lemma_sees_more(board, lights, r, c, x, y, direction(i), k);
                let m = moved(x, y, direction(i), k);
                if x == r && y == c {
                    // the new light would see an old one
                    assert(m != (r, c));
                    assert(sees(board, lights, r, c, direction(i), k));
                    assert(sees_any(board, lights, r, c));
                } else {
                    assert(more[x][y] == lights[x][y]);
                    assert(board.open_at(x, y));
                    if sees(board, lights, x, y, direction(i), k) {
                        assert(sees_any(board, lights, x, y));
                    } else {
                        // an old light would see the new one, so the new one sees it
                        lemma_reach_back(board, more, r, c, x, y, i, k);
                        let j = opposite(i);
                        assert(reaches(board, r, c, x, y, j, k));
                        assert(sees(board, lights, r, c, direction(j), k)) by {
                            assert forall|q: int| 1 <= q <= k - 1 implies board.open_at(
                                (#[trigger] moved(r, c, direction(j), q)).0,
                                moved(r, c, direction(j), q).1,
                            ) by {}
                        }
                        assert(sees_any(board, lights, r, c));
                    }
                }
            }
        }
    }
    assert(fits(more, board)) by {
        assert forall|x: int| 0 <= x < board.h implies (#[trigger] more[x]).len() == board.w by {
            assert(lights[x].len() == board.w);
        }
    }
    assert(board.open_at(r, c));
    assert forall|x: int, y: int| board.inside(x, y) implies ((#[trigger] after[x]@[y]) == Cell::Nil
        <==> !board.open_at(x, y)) by {
        lemma_shone_reaches(board, lights, fill, r, c, x, y);
        if shone(fill, board, r, c, x, y) && !(x == r && y == c) {
            let (i, k) = choose|i: int, k: int| reaches(board, r, c, x, y, i, k);
            assert(board.open_at(moved(r, c, direction(i), k).0, moved(r, c, direction(i), k).1));
        }
    }
    assert forall|x: int, y: int| board.inside(x, y) && #[trigger] more[x][y] implies board.open_at(
        x,
        y,
    ) by {
        if !(x == r && y == c) {
            assert(lights[x].len() == board.w);
            assert(more[x][y] == lights[x][y]);
            assert(lights[x][y]);
        }
    }
    assert forall|x: int, y: int| board.inside(x, y) implies ((#[trigger] after[x]@[y])
        == Cell::Unfillable(true) <==> (board.open_at(x, y) && lit(board, more, x, y))) by {
        lemma_shone_reaches(board, lights, fill, r, c, x, y);
        assert(lights[x].len() == board.w);
        if shone(fill, board, r, c, x, y) {
            if x == r && y == c {
            } else {
                let (i, k) = choose|i: int, k: int| reaches(board, r, c, x, y, i, k);
                assert(board.open_at(moved(r, c, direction(i), k).0, moved(r, c, direction(i), k).1));
                lemma_reach_back(board, more, r, c, x, y, i, k);
                assert(0 <= opposite(i) < 4);
                assert(sees_any(board, more, x, y));
            }
        } else {
            assert(more[x][y] == lights[x][y]);
            if fill[x]@[y] == Cell::Unfillable(true) {
                crate::solver::naive::lemma_lit_more(board, lights, r, c, x, y);
            }
            if board.open_at(x, y) && lit(board, more, x, y) {
                if lights[x][y] {
                    assert(lit(board, lights, x, y));
                } else {
                    let (i, k) = choose|i: int, k: int|
                        0 <= i < 4 && sees(board, more, x, y, direction(i), k);
                    lemma_sees_more(board, lights, r, c, x, y, direction(i), k);
                    if sees(board, lights, x, y, direction(i), k) {
                        assert(sees_any(board, lights, x, y));
                    } else {
                        lemma_reach_back(board, more, r, c, x, y, i, k);
                        assert(reaches(board, r, c, x, y, opposite(i), k));
                        assert(false);
                    }
                }
            }
        }
    }
}

/// A light put where the solution has one keeps the solution in reach.
pub proof fn lemma_put_keeps(
    board: Board,
    lights: Seq<Seq<bool>>,
    fill: Seq<Vec<Cell>>,
    after: Seq<Vec<Cell>>,
    r: int,
    c: int,
    goal: Seq<Seq<bool>>,
)
    requires
        board.wf(),
        tame(board, lights, fill),
        keeps(board, lights, fill, goal),
        board.inside(r, c),
        goal[r][c],
        forall|x: int, y: int|
            board.inside(x, y) ==> (#[trigger] after[x]@[y]) == (if shone(fill, board, r, c, x, y) {
                Cell::Unfillable(true)
            } else {
                fill[x]@[y]
            }),
    ensures
        keeps(board, with_light(lights, r, c), after, goal),
{
    let more = with_light(lights, r, c);
    assert(lights[r].len() == board.w);
    assert forall|x: int, y: int| board.inside(x, y) implies ((#[trigger] more[x][y]) ==> goal[x][y])
        && (goal[x][y] ==> more[x][y] || after[x]@[y] == Cell::Fillable) by {
        assert(lights[x].len() == board.w);
        if x == r && y == c {
        } else {
            assert(more[x][y] == lights[x][y]);
            assert(lights[x][y] ==> goal[x][y]);
            if goal[x][y] && !lights[x][y] {
                assert(fill[x]@[y] == Cell::Fillable);
                lemma_shone_reaches(board, lights, fill, r, c, x, y);
                if shone(fill, board, r, c, x, y) {
                    let (i, k) = choose|i: int, k: int| reaches(board, r, c, x, y, i, k);
                    // the solution would have two lights in sight of each other
                    assert(sees(board, goal, r, c, direction(i), k)) by {
                        assert forall|j: int| 1 <= j <= k - 1 implies board.open_at(
                            (#[trigger] moved(r, c, direction(i), j)).0,
                            moved(r, c, direction(i), j).1,
                        ) by {}
                    }
                    assert(sees_any(board, goal, r, c));
                    assert(board.inside(r, c) && goal[r][c] && sees_any(board, goal, r, c));
                }
            }
        }
    }
}

/// Where the solution in reach has a light, a light can be put or stands already.
pub proof fn lemma_put_works(
    board: Board,
    lights: Seq<Seq<bool>>,
    fill: Seq<Vec<Cell>>,
    r: int,
    c: int,
    goal: Seq<Seq<bool>>,
)
    requires
        board.wf(),
        tame(board, lights, fill),
        keeps(board, lights, fill, goal),
        board.inside(r, c),
        goal[r][c],
    ensures
        lights[r][c] || fill[r]@[c] == Cell::Fillable,
        !lights[r][c] ==> !glare(fill, lights, board, r, c),
{
    if !lights[r][c] {
        lemma_glare_sees(board, lights, fill, r, c);
        if sees_any(board, lights, r, c) {
            let (i, k) = choose|i: int, k: int|
                0 <= i < 4 && sees(board, lights, r, c, direction(i), k);
            let m = moved(r, c, direction(i), k);
            assert(lights[m.0][m.1]);
            assert(goal[m.0][m.1]);
            assert(sees(board, goal, r, c, direction(i), k));
            assert(sees_any(board, goal, r, c));
            assert(board.inside(r, c) && goal[r][c] && sees_any(board, goal, r, c));
        }
    }
}

/// The state with one cell closed to lights.
pub open spec fn with_disabled(fill: Seq<Vec<Cell>>, after: Seq<Vec<Cell>>, board: Board, r: int, c: int) -> bool {
    forall|x: int, y: int|
        board.inside(x, y) ==> (#[trigger] after[x]@[y]) == (if x == r && y == c && fill[x]@[y]
            == Cell::Fillable {
            Cell::Unfillable(false)
        } else {
            fill[x]@[y]
        })
}

/// Closing a cell to lights keeps the state fitting, and keeps every
/// solution in reach that has no light there.
pub proof fn lemma_disable(
    board: Board,
    lights: Seq<Seq<bool>>,
    fill: Seq<Vec<Cell>>,
    after: Seq<Vec<Cell>>,
    r: int,
    c: int,
)
    requires
        tame(board, lights, fill),
        fill_sized(after, board),
        with_disabled(fill, after, board, r, c),
    ensures
        tame(board, lights, after),
        narrowed(board, fill, after),
        board.inside(r, c) ==> after[r]@[c] != Cell::Fillable,
        forall|goal: Seq<Seq<bool>>|
            #[trigger] keeps(board, lights, fill, goal) && !light_at(board, goal, r, c) ==> keeps(
                board,
                lights,
                after,
                goal,
            ),
{
    assert forall|x: int, y: int| board.inside(x, y) implies ((#[trigger] after[x]@[y]) == Cell::Nil
        <==> !board.open_at(x, y)) by {
        assert(fill[x]@[y] == Cell::Nil <==> !board.open_at(x, y));
    }
    assert forall|x: int, y: int| board.inside(x, y) implies ((#[trigger] after[x]@[y])
        == Cell::Unfillable(true) <==> (board.open_at(x, y) && lit(board, lights, x, y))) by {
        assert(fill[x]@[y] == Cell::Unfillable(true) <==> (board.open_at(x, y) && lit(
            board,
            lights,
            x,
            y,
        )));
    }
    assert forall|goal: Seq<Seq<bool>>|
        #[trigger] keeps(board, lights, fill, goal) && !light_at(board, goal, r, c) implies keeps(
        board,
        lights,
        after,
        goal,
    ) by {
        assert forall|x: int, y: int| board.inside(x, y) implies ((#[trigger] lights[x][y])
            ==> goal[x][y]) && (goal[x][y] ==> lights[x][y] || after[x]@[y] == Cell::Fillable) by {
            assert(after[x]@[y] == (if x == r && y == c && fill[x]@[y] == Cell::Fillable {
                Cell::Unfillable(false)
            } else {
                fill[x]@[y]
            }));
        }
    }
}

/// A solution has its lights on empty cells.
pub proof fn lemma_solution_open(board: Board, goal: Seq<Seq<bool>>, r: int, c: int)
    requires
        solves(board, goal),
        board.inside(r, c),
        goal[r][c],
    ensures
        board.open_at(r, c),
{
    if !board.open_at(r, c) {
        assert(miscounted(board, goal, r, c));
    }
}

/// With a solution in reach no cell is without hope.
pub proof fn lemma_not_stuck(
    board: Board,
    lights: Seq<Seq<bool>>,
    fill: Seq<Vec<Cell>>,
    goal: Seq<Seq<bool>>,
    x: int,
    y: int,
)
    requires
        board.wf(),
        tame(board, lights, fill),
        keeps(board, lights, fill, goal),
        board.inside(x, y),
    ensures
        !stuck(fill, board, x, y),
{
    if fill[x]@[y] == Cell::Unfillable(false) {
        assert(board.open_at(x, y));
        assert(!lit(board, lights, x, y));
        assert(lit(board, goal, x, y));
        assert(!goal[x][y]);
        let (i, k) = choose|i: int, k: int| 0 <= i < 4 && sees(board, goal, x, y, direction(i), k);
        let m = moved(x, y, direction(i), k);
        assert(goal[m.0][m.1]);
        if lights[m.0][m.1] {
            assert(sees(board, lights, x, y, direction(i), k));
            assert(sees_any(board, lights, x, y));
        }
        assert(fill[m.0]@[m.1] == Cell::Fillable);
        lemma_solution_open(board, goal, m.0, m.1);
        assert(open_run(board, x, y, direction(i), k)) by {
            assert forall|j: int| 1 <= j <= k implies board.open_at(
                (#[trigger] moved(x, y, direction(i), j)).0,
                moved(x, y, direction(i), j).1,
            ) by {
                if j < k {
                    assert(open_run(board, x, y, direction(i), k - 1));
                }
            }
        }
        lemma_passable_open(board, lights, fill, x, y, direction(i), k);
        assert(finds_candidate(fill, board, x, y, direction(i), k));
        assert(has_candidate(fill, board, x, y));
    }
}

/// When every cell is decided, the solution in reach is the placement itself.
pub proof fn lemma_kept_at_end(
    board: Board,
    lights: Seq<Seq<bool>>,
    fill: Seq<Vec<Cell>>,
    goal: Seq<Seq<bool>>,
)
    requires
        tame(board, lights, fill),
        keeps(board, lights, fill, goal),
        decided(board, fill, (board.h * board.w) as int),
    ensures
        goal == lights,
{
    assert forall|x: int| 0 <= x < board.h implies #[trigger] goal[x] == lights[x] by {
        assert(goal[x].len() == board.w && lights[x].len() == board.w);
        assert forall|y: int| 0 <= y < board.w implies goal[x][y] == lights[x][y] by {
            lemma_all_ahead(board, x, y);
            assert(fill[x]@[y] != Cell::Fillable);
            assert(lights[x][y] ==> goal[x][y]);
        }
        assert(goal[x] =~= lights[x]);
    }
    assert(goal =~= lights);
}

/// The directions in which a neighbour holds a light are listed in rising
/// order, there are as many as there are lights around, and a direction is
/// listed exactly when the neighbour there holds a light.
pub proof fn lemma_wanted(board: Board, goal: Seq<Seq<bool>>, r: int, c: int, i: int)
    requires
        0 <= i <= 4,
    ensures
        wanted_upto(board, goal, r, c, i).len() == crate::solver::lights_upto(
            board,
            goal,
            r,
            c,
            i,
        ),
        forall|j: int|
            0 <= j < wanted_upto(board, goal, r, c, i).len() ==> (#[trigger] wanted_upto(
                board,
                goal,
                r,
                c,
                i,
            )[j]) < i,
        forall|a: int, b: int|
            0 <= a < b < wanted_upto(board, goal, r, c, i).len() ==> wanted_upto(
                board,
                goal,
                r,
                c,
                i,
            )[a] < wanted_upto(board, goal, r, c, i)[b],
        forall|q: int|
            0 <= q < i ==> (wanted_upto(board, goal, r, c, i).contains(q as usize) <==> light_at(
                board,
                goal,
                (#[trigger] moved(r, c, direction(q), 1)).0,
                moved(r, c, direction(q), 1).1,
            )),
    decreases i,
{
    if i > 0 {
        lemma_wanted(board, goal, r, c, i - 1);
        let before = wanted_upto(board, goal, r, c, i - 1);
        let now = wanted_upto(board, goal, r, c, i);
        let m = moved(r, c, direction(i - 1), 1);
        assert forall|q: int| 0 <= q < i implies (now.contains(q as usize) <==> light_at(
            board,
            goal,
            (#[trigger] moved(r, c, direction(q), 1)).0,
            moved(r, c, direction(q), 1).1,
        )) by {
            if q < i - 1 {
                if before.contains(q as usize) {
                    let j = choose|j: int| 0 <= j < before.len() && before[j] == q as usize;
                    assert(now[j] == q as usize);
                }
                if now.contains(q as usize) {
                    let j = choose|j: int| 0 <= j < now.len() && now[j] == q as usize;
                    if j < before.len() {
                        assert(before[j] == q as usize);
                    }
                }
            } else {
                if light_at(board, goal, m.0, m.1) {
                    assert(now[now.len() - 1] == (i - 1) as usize);
                }
                if now.contains(q as usize) {
                    let j = choose|j: int| 0 <= j < now.len() && now[j] == q as usize;
                    if j < before.len() {
                        assert(before[j] < i - 1);
                    }
                }
            }
        }
    }
}


/// Two tentative states with the same cells say the same.
pub proof fn lemma_same_fill(
    board: Board,
    lights: Seq<Seq<bool>>,
    a: Seq<Vec<Cell>>,
    b: Seq<Vec<Cell>>,
)
    requires
        a.len() == board.h,
        b.len() == board.h,
        forall|x: int| 0 <= x < a.len() ==> (#[trigger] b[x])@ == a[x]@,
    ensures
        tame(board, lights, a) ==> tame(board, lights, b),
        narrowed(board, a, b),
        forall|goal: Seq<Seq<bool>>|
            #[trigger] keeps(board, lights, a, goal) ==> keeps(board, lights, b, goal),
        forall|pos: int| #[trigger] decided(board, a, pos) ==> decided(board, b, pos),
{
    if tame(board, lights, a) {
        assert(fill_sized(b, board)) by {
            assert forall|x: int| 0 <= x < board.h implies (#[trigger] b[x])@.len() == board.w by {
                assert(a[x]@.len() == board.w);
            }
        }
        assert forall|x: int, y: int| board.inside(x, y) implies ((#[trigger] b[x]@[y]) == Cell::Nil
            <==> !board.open_at(x, y)) by {
            assert(a[x]@[y] == b[x]@[y]);
        }
        assert forall|x: int, y: int| board.inside(x, y) implies ((#[trigger] b[x]@[y])
            == Cell::Unfillable(true) <==> (board.open_at(x, y) && lit(board, lights, x, y))) by {
            assert(a[x]@[y] == b[x]@[y]);
        }
    }
    assert forall|goal: Seq<Seq<bool>>| #[trigger] keeps(board, lights, a, goal) implies keeps(
        board,
        lights,
        b,
        goal,
    ) by {
        assert forall|x: int, y: int| board.inside(x, y) implies ((#[trigger] lights[x][y])
            ==> goal[x][y]) && (goal[x][y] ==> lights[x][y] || b[x]@[y] == Cell::Fillable) by {
            assert(a[x]@[y] == b[x]@[y]);
        }
    }
    assert forall|pos: int| #[trigger] decided(board, a, pos) implies decided(board, b, pos) by {
        assert forall|x: int, y: int| board.inside(x, y) && ahead(board, x, y, pos) implies (
        #[trigger] b[x]@[y]) != Cell::Fillable by {
            assert(a[x]@[y] == b[x]@[y]);
        }
    }
}

/// A solution in reach of a state is in reach of any state with the same cells.
pub proof fn lemma_same_cells(
    board: Board,
    lights: Seq<Seq<bool>>,
    a: Seq<Vec<Cell>>,
    b: Seq<Vec<Cell>>,
    goal: Seq<Seq<bool>>,
)
    requires
        keeps(board, lights, a, goal),
        forall|x: int, y: int| board.inside(x, y) ==> (#[trigger] b[x]@[y]) == a[x]@[y],
    ensures
        keeps(board, lights, b, goal),
{
    assert forall|x: int, y: int| board.inside(x, y) implies ((#[trigger] lights[x][y])
        ==> goal[x][y]) && (goal[x][y] ==> lights[x][y] || b[x]@[y] == Cell::Fillable) by {
        assert(b[x]@[y] == a[x]@[y]);
    }
}

/// Before any light is put, the state fits, nothing need be decided, and
/// every solution is in reach.
pub proof fn lemma_start_tame(board: Board, lights: Seq<Seq<bool>>, fill: Seq<Vec<Cell>>)
    requires
        board.wf(),
        fits(lights, board),
        fill_sized(fill, board),
        forall|x: int, y: int| board.inside(x, y) ==> !(#[trigger] lights[x][y]),
        forall|x: int, y: int|
            board.inside(x, y) ==> (#[trigger] fill[x]@[y]) == (if board.open_at(x, y) {
                Cell::Fillable
            } else {
                Cell::Nil
            }),
    ensures
        tame(board, lights, fill),
        decided(board, fill, 0),
        forall|goal: Seq<Seq<bool>>| solves(board, goal) ==> #[trigger] keeps(
            board,
            lights,
            fill,
            goal,
        ),
{
    assert forall|x: int, y: int| board.inside(x, y) implies !lit(board, lights, x, y) by {
        assert(!lights[x][y]);
        if sees_any(board, lights, x, y) {
            let (i, k) = choose|i: int, k: int|
                0 <= i < 4 && sees(board, lights, x, y, direction(i), k);
            let m = moved(x, y, direction(i), k);
            assert(lights[m.0][m.1]);
        }
    }
    assert forall|x: int, y: int| board.inside(x, y) && ahead(board, x, y, 0) implies (
    #[trigger] fill[x]@[y]) != Cell::Fillable by {
        assert(x * board.w + y >= 0) by (nonlinear_arith)
            requires
                x >= 0,
                y >= 0,
                board.w >= 0,
        ;
    }
    assert forall|goal: Seq<Seq<bool>>| solves(board, goal) implies #[trigger] keeps(
        board,
        lights,
        fill,
        goal,
    ) by {
        assert forall|x: int, y: int| board.inside(x, y) implies ((#[trigger] lights[x][y])
            ==> goal[x][y]) && (goal[x][y] ==> lights[x][y] || fill[x]@[y] == Cell::Fillable) by {
            if goal[x][y] {
                if !board.open_at(x, y) {
                    assert(miscounted(board, goal, x, y));
                }
            }
        }
    }
}


/// Nothing lies before the first place, so nothing need be decided there.
pub proof fn lemma_decided_zero(board: Board, fill: Seq<Vec<Cell>>)
    ensures
        decided(board, fill, 0),
{
    assert forall|x: int, y: int| board.inside(x, y) && ahead(board, x, y, 0) implies (
    #[trigger] fill[x]@[y]) != Cell::Fillable by {
        assert(x * board.w + y >= 0) by (nonlinear_arith)
            requires
                x >= 0,
                y >= 0,
                board.w >= 0,
        ;
    }
}


/// The tentative state as a grid of cells.
pub open spec fn grid_of(fill: Seq<Vec<Cell>>) -> Seq<Seq<Cell>> {
    Seq::new(fill.len(), |x: int| fill[x]@)
}

/// A walk from `(r, c)` over empty cells comes to `(x, y)`.
pub open spec fn beam_to(board: Board, r: int, c: int, x: int, y: int) -> bool {
    exists|i: int, k: int| reaches(board, r, c, x, y, i, k)
}

/// The grid after a light on `(r, c)`: the cell and what the light shines on are lit.
pub open spec fn lit_grid(board: Board, g: Seq<Seq<Cell>>, r: int, c: int) -> Seq<Seq<Cell>> {
    Seq::new(
        g.len(),
        |x: int|
            Seq::new(
                g[x].len(),
                |y: int|
                    if (x == r && y == c) || beam_to(board, r, c, x, y) {
                        Cell::Unfillable(true)
                    } else {
                        g[x][y]
                    },
            ),
    )
}

/// What putting a light on `(r, c)` makes of a state: on a cell that may
/// get a light and sees none, the light is put and what it shines on is
/// lit; a cell that holds a light already is left as it is; any other
/// cell refuses the light.
pub open spec fn put_model(
    board: Board,
    lights: Seq<Seq<bool>>,
    g: Seq<Seq<Cell>>,
    r: int,
    c: int,
) -> Option<(Seq<Seq<bool>>, Seq<Seq<Cell>>)> {
    if g[r][c] == Cell::Fillable {
        if sees_any(board, lights, r, c) {
            None
        } else {
            Some((with_light(lights, r, c), lit_grid(board, g, r, c)))
        }
    } else if lights[r][c] {
        Some((lights, g))
    } else {
        None
    }
}

/// What the lights on the first `p` picked neighbours of `(r, c)`, put in
/// turn, make of a state; `None` as soon as a picked neighbour lies off
/// the grid or refuses the light.
pub open spec fn puts_model(
    board: Board,
    lights: Seq<Seq<bool>>,
    g: Seq<Seq<Cell>>,
    r: int,
    c: int,
    pick: Seq<usize>,
    p: int,
) -> Option<(Seq<Seq<bool>>, Seq<Seq<Cell>>)>
    decreases p,
{
    if p <= 0 {
        Some((lights, g))
    } else {
        match puts_model(board, lights, g, r, c, pick, p - 1) {
            None => None,
            Some((l1, g1)) => {
                let m = moved(r, c, direction(pick[p - 1] as int), 1);
                if board.inside(m.0, m.1) {
                    put_model(board, l1, g1, m.0, m.1)
                } else {
                    None
                }
            },
        }
    }
}

/// The grid after the neighbours of `(r, c)` in the first `j` directions
/// that are not picked were closed to lights.
pub open spec fn closed_model(
    board: Board,
    g: Seq<Seq<Cell>>,
    r: int,
    c: int,
    pick: Seq<usize>,
    j: int,
) -> Seq<Seq<Cell>>
    decreases j,
{
    if j <= 0 {
        g
    } else {
        let g1 = closed_model(board, g, r, c, pick, j - 1);
        let m = moved(r, c, direction(j - 1), 1);
        if !pick.contains((j - 1) as usize) && board.inside(m.0, m.1) && g1[m.0][m.1]
            == Cell::Fillable {
            g1.update(m.0, g1[m.0].update(m.1, Cell::Unfillable(false)))
        } else {
            g1
        }
    }
}

/// What settling the wall at `(r, c)` by the picked neighbours makes of a
/// state: the lights on the picked neighbours in turn, then the other
/// neighbours closed; `None` where one of the lights cannot be put.
pub open spec fn settle_model(
    board: Board,
    lights: Seq<Seq<bool>>,
    g: Seq<Seq<Cell>>,
    r: int,
    c: int,
    pick: Seq<usize>,
) -> Option<(Seq<Seq<bool>>, Seq<Seq<Cell>>)> {
    match puts_model(board, lights, g, r, c, pick, pick.len() as int) {
        None => None,
        Some((l1, g1)) => Some((l1, closed_model(board, g1, r, c, pick, 4))),
    }
}

/// Once a light cannot be put, the lights cannot all be put.
pub proof fn lemma_puts_fail(
    board: Board,
    lights: Seq<Seq<bool>>,
    g: Seq<Seq<Cell>>,
    r: int,
    c: int,
    pick: Seq<usize>,
    p: int,
    q: int,
)
    requires
        0 <= p <= q,
        puts_model(board, lights, g, r, c, pick, p) is None,
    ensures
        puts_model(board, lights, g, r, c, pick, q) is None,
    decreases q - p,
{
    if p < q {
        lemma_puts_fail(board, lights, g, r, c, pick, p, q - 1);
    }
}

/// What `put_model` says of a cell that may get a light is what the walks
/// over the tentative state say.
pub proof fn lemma_put_model(
    board: Board,
    lights: Seq<Seq<bool>>,
    fill: Seq<Vec<Cell>>,
    after: Seq<Vec<Cell>>,
    r: int,
    c: int,
)
    requires
        tame(board, lights, fill),
        board.inside(r, c),
        fill[r]@[c] == Cell::Fillable,
        fill_sized(after, board),
        forall|x: int, y: int|
            board.inside(x, y) ==> (#[trigger] after[x]@[y]) == (if shone(fill, board, r, c, x, y) {
                Cell::Unfillable(true)
            } else {
                fill[x]@[y]
            }),
    ensures
        glare(fill, lights, board, r, c) == sees_any(board, lights, r, c),
        grid_of(after) == lit_grid(board, grid_of(fill), r, c),
{
    lemma_glare_sees(board, lights, fill, r, c);
    let a = grid_of(after);
    let b = lit_grid(board, grid_of(fill), r, c);
    assert(a.len() == b.len());
    assert forall|x: int| 0 <= x < a.len() implies #[trigger] a[x] == b[x] by {
        assert(fill[x]@.len() == board.w);
        assert(after[x]@.len() == board.w);
        assert forall|y: int| 0 <= y < board.w implies a[x][y] == b[x][y] by {
            lemma_shone_reaches(board, lights, fill, r, c, x, y);
            assert(board.inside(x, y));
        }
        assert(a[x] =~= b[x]);
    }
    assert(a =~= b);
}

} // verus!
