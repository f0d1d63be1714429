//! Plain exhaustive search, the reference against which the others are held.

use vstd::prelude::*;
use crate::field::{fits, Board, Field, Solution};
use crate::solver::{
    answers, beam_marked, copy_grid, dark_marks, filled_grid, lemma_kept_beams, lit, marks_kept,
    marks_shaped, marks_sound, open_run, opposite, sees, sees_any, solvable, solvable_input, solves, sweep,
    with_light, Solver,
};
use crate::solver::ways::{dark, seen};
use crate::utility::{direction, moved};

verus! {

/// Backtracking over the cells in row-major order.
pub struct Naive;

/// `pos / w` and `pos % w` name a cell of the grid when `pos` counts one.
pub proof fn lemma_cell_of_index(pos: int, h: int, w: int)
    requires
        0 <= pos < h * w,
        0 <= h,
        0 <= w,
    ensures
        w > 0,
        0 <= pos / w < h,
        0 <= pos % w < w,
        pos == (pos / w) * w + pos % w,
{
    assert(w > 0) by (nonlinear_arith)
        requires
            0 <= pos < h * w,
            0 <= w,
    ;
    vstd::arithmetic::div_mod::lemma_fundamental_div_mod(pos, w);
    vstd::arithmetic::div_mod::lemma_mod_bound(pos, w);
    vstd::arithmetic::div_mod::lemma_div_pos_is_pos(pos, w);
    assert(pos / w < h) by (nonlinear_arith)
        requires
            pos == w * (pos / w) + pos % w,
            0 <= pos % w,
            pos < h * w,
            w > 0,
    ;
    assert((pos / w) * w == w * (pos / w)) by (nonlinear_arith);
}

/// The cell `(x, y)` comes before place `pos` in row-major order.
pub open spec fn ahead(board: Board, x: int, y: int, pos: int) -> bool {
    x * board.w + y < pos
}

/// The two placements agree on every cell before place `pos`.
pub open spec fn agrees(board: Board, a: Seq<Seq<bool>>, b: Seq<Seq<bool>>, pos: int) -> bool {
    forall|x: int, y: int|
        board.inside(x, y) && ahead(board, x, y, pos) ==> (#[trigger] a[x][y]) == b[x][y]
}

/// The state of the search when it stands at place `pos`: lights stand
/// only on empty cells before `pos`, and exactly the lit empty cells are
/// marked bright.
pub open spec fn steady(
    board: Board,
    lights: Seq<Seq<bool>>,
    marks: Seq<Vec<Option<bool>>>,
    pos: int,
) -> bool {
    &&& fits(lights, board)
    &&& marks_shaped(marks, board)
    &&& forall|x: int, y: int|
        board.inside(x, y) && #[trigger] lights[x][y] ==> board.open_at(x, y) && ahead(
            board,
            x,
            y,
            pos,
        )
    &&& forall|x: int, y: int|
        board.inside(x, y) ==> ((#[trigger] marks[x]@[y]) == Some(true) <==> (board.open_at(x, y)
            && lit(board, lights, x, y)))
}

/// Two cells with the same place in row-major order are one cell.
pub proof fn lemma_same_cell(w: int, x: int, y: int, r: int, c: int)
    requires
        0 <= y < w,
        0 <= c < w,
        x * w + y == r * w + c,
    ensures
        x == r,
        y == c,
{
    assert(x == r) by (nonlinear_arith)
        requires
            0 <= y < w,
            0 <= c < w,
            x * w + y == r * w + c,
    ;
    assert(y == c) by (nonlinear_arith)
        requires
            x == r,
            x * w + y == r * w + c,
    ;
}

/// Every cell of the board comes before the place after the last.
pub proof fn lemma_all_ahead(board: Board, x: int, y: int)
    requires
        board.inside(x, y),
    ensures
        ahead(board, x, y, (board.h * board.w) as int),
{
    assert(x * board.w + y < board.h * board.w) by (nonlinear_arith)
        requires
            0 <= x < board.h,
            0 <= y < board.w,
    ;
}

/// Placements of the same shape that agree on every cell are one placement.
pub proof fn lemma_agree_everywhere(board: Board, a: Seq<Seq<bool>>, b: Seq<Seq<bool>>)
    requires
        fits(a, board),
        fits(b, board),
        agrees(board, a, b, (board.h * board.w) as int),
    ensures
        a == b,
{
    assert forall|x: int| 0 <= x < board.h implies #[trigger] a[x] == b[x] by {
        assert(a[x].len() == board.w && b[x].len() == board.w);
        assert forall|y: int| 0 <= y < board.w implies a[x][y] == b[x][y] by {
            lemma_all_ahead(board, x, y);
        }
        assert(a[x] =~= b[x]);
    }
    assert(a =~= b);
}

/// What a cell sees in a placement it sees when a light is added, and what
/// it sees more is the added light.
pub proof fn lemma_sees_more(
    board: Board,
    lights: Seq<Seq<bool>>,
    r: int,
    c: int,
    x: int,
    y: int,
    d: (usize, usize),
    k: int,
)
    requires
        fits(lights, board),
        board.inside(r, c),
    ensures
        sees(board, lights, x, y, d, k) ==> sees(board, with_light(lights, r, c), x, y, d, k),
        sees(board, with_light(lights, r, c), x, y, d, k) ==> sees(board, lights, x, y, d, k)
            || moved(x, y, d, k) == (r, c),
{
    let more = with_light(lights, r, c);
    let m = moved(x, y, d, k);
    if board.inside(m.0, m.1) {
        assert(lights[m.0].len() == board.w);
        assert(lights[r].len() == board.w);
        if m.0 == r {
            assert(more[m.0] == lights[r].update(c, true));
        } else {
            assert(more[m.0] == lights[m.0]);
        }
    }
}

/// With a light added, every cell that was lit is lit.
pub proof fn lemma_lit_more(board: Board, lights: Seq<Seq<bool>>, r: int, c: int, x: int, y: int)
    requires
        fits(lights, board),
        board.inside(r, c),
        board.inside(x, y),
        lit(board, lights, x, y),
    ensures
        lit(board, with_light(lights, r, c), x, y),
{
    let more = with_light(lights, r, c);
    assert(lights[x].len() == board.w);
    assert(lights[r].len() == board.w);
    if lights[x][y] {
        if x == r {
            assert(more[x] == lights[r].update(c, true));
        } else {
            assert(more[x] == lights[x]);
        }
    } else {
        let (i, k) = choose|i: int, k: int|
            0 <= i < 4 && sees(board, lights, x, y, direction(i), k);
        lemma_sees_more(board, lights, r, c, x, y, direction(i), k);
        assert(sees(board, more, x, y, direction(i), k));
    }
}

/// A cell on which the one solution that the search follows has a light is
/// still dark when the search comes to it.
pub proof fn lemma_wanted_is_dark(
    board: Board,
    s: Seq<Seq<bool>>,
    lights: Seq<Seq<bool>>,
    marks: Seq<Vec<Option<bool>>>,
    pos: int,
    r: int,
    c: int,
)
    requires
        board.wf(),
        steady(board, lights, marks, pos),
        solves(board, s),
        agrees(board, s, lights, pos),
        board.inside(r, c),
        r * board.w + c == pos,
        s[r][c],
    ensures
        marks[r]@[c] == Some(false),
{
    // a light of a solution stands on an empty cell
    assert(board.open_at(r, c)) by {
        if !board.open_at(r, c) {
            assert(crate::solver::miscounted(board, s, r, c));
        }
    }
    assert(marks[r]@[c] is Some);
    if marks[r]@[c] == Some(true) {
        assert(lit(board, lights, r, c));
        assert(!lights[r][c]) by {
            if lights[r][c] {
                assert(ahead(board, r, c, pos));
            }
        }
        let (i, k) = choose|i: int, k: int|
            0 <= i < 4 && sees(board, lights, r, c, direction(i), k);
        let m = moved(r, c, direction(i), k);
        assert(lights[m.0][m.1]);
        assert(ahead(board, m.0, m.1, pos));
        assert(s[m.0][m.1] == lights[m.0][m.1]);
        assert(sees(board, s, r, c, direction(i), k));
        assert(sees_any(board, s, r, c));
        assert(board.inside(r, c) && s[r][c] && sees_any(board, s, r, c));
    }
}

/// After a light is put on the dark cell at place `pos` and its beams are
/// marked, the search stands at the next place in a proper state.
pub proof fn lemma_steady_lit(
    board: Board,
    lights: Seq<Seq<bool>>,
    marks: Seq<Vec<Option<bool>>>,
    after: Seq<Vec<Option<bool>>>,
    pos: int,
    r: int,
    c: int,
)
    requires
        board.wf(),
        steady(board, lights, marks, pos),
        board.inside(r, c),
        r * board.w + c == pos,
        marks[r]@[c] == Some(false),
        marks_shaped(after, board),
        marks_sound(after, board, with_light(lights, r, c)),
        marks_kept(marks, after, board),
        after[r]@[c] == Some(true),
        forall|i: int| 0 <= i < 4 ==> #[trigger] beam_marked(after, board, r, c, direction(i)),
    ensures
        steady(board, with_light(lights, r, c), after, pos + 1),
{
    let more = with_light(lights, r, c);
    assert(lights[r].len() == board.w);
    assert(fits(more, board)) by {
        assert forall|x: int| 0 <= x < board.h implies (#[trigger] more[x]).len() == board.w by {
            assert(lights[x].len() == board.w);
        }
    }
    assert forall|x: int, y: int| board.inside(x, y) && #[trigger] more[x][y] implies board.open_at(
        x,
        y,
    ) && ahead(board, x, y, pos + 1) by {
        if x == r && y == c {
        } else {
            assert(lights[x].len() == board.w);
            assert(more[x][y] == lights[x][y]);
            assert(lights[x][y]);
        }
    }
    assert forall|x: int, y: int| board.inside(x, y) implies ((#[trigger] after[x]@[y]) == Some(
        true,
    ) <==> (board.open_at(x, y) && lit(board, more, x, y))) by {
        if board.open_at(x, y) && lit(board, more, x, y) {
            if x == r && y == c {
            } else {
                assert(lights[x].len() == board.w);
                assert(more[x][y] == lights[x][y]);
                if lights[x][y] {
                    assert(lit(board, lights, x, y));
                    assert(marks[x]@[y] == Some(true));
                } else {
                    let (i, k) = choose|i: int, k: int|
                        0 <= i < 4 && sees(board, more, x, y, direction(i), k);
                    lemma_sees_more(board, lights, r, c, x, y, direction(i), k);
                    if sees(board, lights, x, y, direction(i), k) {
                        assert(sees_any(board, lights, x, y));
                        assert(marks[x]@[y] == Some(true));
                    } else {
                        // the new light shines back along the same line
                        let d = direction(i);
                        let back = direction(opposite(i));
                        assert(moved(x, y, d, k) == (r, c));
                        assert(beam_marked(after, board, r, c, direction(opposite(i))));
                        assert(open_run(board, r, c, back, k)) by {
                            assert forall|j: int| 1 <= j <= k implies board.open_at(
                                (#[trigger] moved(r, c, back, j)).0,
                                moved(r, c, back, j).1,
                            ) by {
                                assert(moved(r, c, back, j) == moved(x, y, d, k - j));
                                if j < k {
                                    assert(board.open_at(
                                        moved(x, y, d, k - j).0,
                                        moved(x, y, d, k - j).1,
                                    ));
                                }
                            }
                        }
                        assert(moved(r, c, back, k) == (x, y));
                    }
                }
            }
        }
    }
}

/// What the plain search finds from place `pos` on, with the lights put
/// so far: after the last cell the placement is judged; an empty cell
/// that no light reaches is tried with a light first, then without; any
/// other cell gets none.
pub open spec fn plain_search(board: Board, pos: int, lights: Seq<Seq<bool>>) -> Option<
    Seq<Seq<bool>>,
>
    decreases board.h * board.w - pos,
{
    if pos < 0 || pos >= board.h * board.w {
        if solves(board, lights) {
            Some(lights)
        } else {
            None
        }
    } else {
        let r = pos / (board.w as int);
        let c = pos % (board.w as int);
        let with_it = if board.open_at(r, c) && !lit(board, lights, r, c) {
            plain_search(board, pos + 1, with_light(lights, r, c))
        } else {
            None
        };
        if with_it is Some {
            with_it
        } else {
            plain_search(board, pos + 1, lights)
        }
    }
}

impl Naive {
    /// Tries, for every empty cell from `pos` on that no light reaches yet,
    /// first a light and then none; at the end keeps the placement if the
    /// verifier accepts it. Stops at the first placement found. If any
    /// solution agrees with the lights put so far, one is found; what is
    /// found is what `plain_search` says.
    pub fn rec(
        field: &Field,
        pos: usize,
        sol: Solution,
        fill: Vec<Vec<Option<bool>>>,
        found: &mut Option<Solution>,
    )
        requires
            solvable_input(field),
            pos <= field.h * field.w,
            steady(field@, sol@, fill@, pos as int),
            *old(found) matches Some(s) ==> solves(field@, s@),
        ensures
            *final(found) matches Some(s) ==> solves(field@, s@),
            *old(found) is Some ==> *final(found) == *old(found),
            (exists|s: Seq<Seq<bool>>| solves(field@, s) && agrees(field@, s, sol@, pos as int))
                ==> *final(found) is Some,
            *old(found) is None ==> seen(*final(found)) == plain_search(field@, pos as int, sol@),
        decreases field.h * field.w - pos,
    {
        let (h, w) = (field.h, field.w);
        let ghost board = field@;
        let ghost lights = sol@;
        let ghost marks = fill@;

        if found.is_some() {
            return ;
        }
        if pos == h * w {
            proof {
                if exists|s: Seq<Seq<bool>>| solves(board, s) && agrees(board, s, lights, pos as int) {
                    let s = choose|s: Seq<Seq<bool>>|
                        solves(board, s) && agrees(board, s, lights, pos as int);
                    lemma_agree_everywhere(board, s, lights);
                }
            }
            if Self::_check(field, &sol).is_ok() {
                *found = Some(sol);
            }
            return ;
        }
        proof {
            lemma_cell_of_index(pos as int, h as int, w as int);
        }
        let (r, c) = (pos / w, pos % w);
        assert(fill@[r as int]@.len() == w);
        assert(sol@[r as int].len() == w);
        assert(!lights[r as int][c as int]) by {
            if lights[r as int][c as int] {
                assert(ahead(board, r as int, c as int, pos as int));
            }
        }

        let free = match fill[r][c] {
            Some(bright) => !bright,
            None => false,
        };
        proof {
            assert(board.inside(r as int, c as int));
            assert(free == (board.open_at(r as int, c as int) && !lit(
                board,
                lights,
                r as int,
                c as int,
            )));
        }
        if free {
            let mut new_sol = sol.duplicate();
            new_sol.field[r][c] = true;
            let mut new_fill = copy_grid(&fill);
            let ghost copied = new_fill@;
            new_fill[r][c] = Some(true);
            let ghost more = with_light(lights, r as int, c as int);
            proof {
                assert(new_sol@ =~= more) by {
                    assert forall|x: int| 0 <= x < new_sol@.len() implies #[trigger] new_sol@[x]
                        == more[x] by {
                        if x == r {
                            assert(new_sol@[x] =~= lights[x].update(c as int, true));
                        }
                    }
                }
                assert(fits(more, board)) by {
                    assert forall|x: int| 0 <= x < h implies (#[trigger] more[x]).len() == w by {
                        assert(lights[x].len() == w);
                    }
                }
                assert forall|x: int, y: int| board.inside(x, y) implies new_fill@[x]@[y] == (if x
                    == r && y == c {
                    Some(true)
                } else {
                    marks[x]@[y]
                }) by {
                    assert(copied[x]@ == marks[x]@);
                    if x == r {
                    } else {
                        assert(new_fill@[x] == copied[x]);
                    }
                }
                assert(marks_shaped(new_fill@, board));
                assert(marks_kept(marks, new_fill@, board));
                assert(marks_sound(new_fill@, board, more)) by {
                    assert forall|x: int, y: int|
                        board.inside(x, y) && (#[trigger] new_fill@[x]@[y]) == Some(
                            true,
                        ) implies lit(board, more, x, y) by {
                        if x == r && y == c {
                        } else {
                            assert(marks[x]@[y] == Some(true));
                            lemma_lit_more(board, lights, r as int, c as int, x, y);
                        }
                    }
                }
            }
            let mut i: usize = 0;
            while i < 4
                invariant
                    solvable_input(field),
                    board == field@,
                    lights == sol@,
                    marks == fill@,
                    more == with_light(lights, r as int, c as int),
                    new_sol@ == more,
                    h == field.h,
                    w == field.w,
                    r < h,
                    c < w,
                    r * w + c == pos,
                    0 <= i <= 4,
                    steady(board, lights, marks, pos as int),
                    marks[r as int]@[c as int] == Some(false),
                    fits(more, board),
                    marks_shaped(new_fill@, board),
                    marks_sound(new_fill@, board, more),
                    marks_kept(marks, new_fill@, board),
                    new_fill@[r as int]@[c as int] == Some(true),
                    forall|j: int|
                        0 <= j < i ==> #[trigger] beam_marked(
                            new_fill@,
                            board,
                            r as int,
                            c as int,
                            direction(j),
                        ),
                    *found is None,
                    *old(found) is None,
                decreases 4 - i,
            {
                let ghost mid = new_fill@;
                let hit = sweep(field, &new_sol, &mut new_fill, r, c, i);
                proof {
                    if hit {
                        // the cell would have been lit already
                        let k = choose|k: int|
                            sees(board, more, r as int, c as int, direction(i as int), k);
                        lemma_sees_more(
                            board,
                            lights,
                            r as int,
                            c as int,
                            r as int,
                            c as int,
                            direction(i as int),
                            k,
                        );
                        assert(moved(r as int, c as int, direction(i as int), k) != (
                            r as int,
                            c as int,
                        ));
                        assert(sees(board, lights, r as int, c as int, direction(i as int), k));
                        assert(sees_any(board, lights, r as int, c as int));
                        assert(false);
                    }
                    lemma_kept_beams(mid, new_fill@, board, r as int, c as int, i as int);
                    assert(marks_kept(marks, new_fill@, board)) by {
                        assert forall|x: int, y: int|
                            board.inside(x, y) && (#[trigger] marks[x]@[y]) == Some(
                                true,
                            ) implies new_fill@[x]@[y] == Some(true) by {
                            assert(mid[x]@[y] == Some(true));
                        }
                    }
                }
                if hit {
                    return ;
                }
                i = i + 1;
            }
            proof {
                lemma_steady_lit(
                    board,
                    lights,
                    marks,
                    new_fill@,
                    pos as int,
                    r as int,
                    c as int,
                );
            }
            Self::rec(field, pos + 1, new_sol, new_fill, found);
            proof {
                if exists|s: Seq<Seq<bool>>|
                    solves(board, s) && agrees(board, s, lights, pos as int) && s[r as int][c as int] {
                    let s = choose|s: Seq<Seq<bool>>|
                        solves(board, s) && agrees(board, s, lights, pos as int)
                            && s[r as int][c as int];
                    assert(agrees(board, s, more, pos + 1)) by {
                        assert forall|x: int, y: int|
                            board.inside(x, y) && ahead(board, x, y, pos + 1) implies (
                        #[trigger] s[x][y]) == more[x][y] by {
                            if x * w + y == pos {
                                lemma_same_cell(w as int, x, y, r as int, c as int);
                            } else {
                                assert(ahead(board, x, y, pos as int));
                                assert(lights[x].len() == w);
                                assert(more[x][y] == lights[x][y]);
                            }
                        }
                    }
                    assert(*found is Some);
                }
            }
        } else {
            proof {
                if exists|s: Seq<Seq<bool>>|
                    solves(board, s) && agrees(board, s, lights, pos as int) && s[r as int][c as int] {
                    let s = choose|s: Seq<Seq<bool>>|
                        solves(board, s) && agrees(board, s, lights, pos as int)
                            && s[r as int][c as int];
                    lemma_wanted_is_dark(board, s, lights, marks, pos as int, r as int, c as int);
                    assert(false);
                }
            }
        }
        let ghost between = *found;
        proof {
            assert(steady(board, lights, marks, pos + 1)) by {
                assert forall|x: int, y: int|
                    board.inside(x, y) && #[trigger] lights[x][y] implies board.open_at(x, y)
                    && ahead(board, x, y, pos + 1) by {
                    assert(ahead(board, x, y, pos as int));
                }
            }
        }
        Self::rec(field, pos + 1, sol, fill, found);
        proof {
            if exists|s: Seq<Seq<bool>>| solves(board, s) && agrees(board, s, lights, pos as int) {
                let s = choose|s: Seq<Seq<bool>>|
                    solves(board, s) && agrees(board, s, lights, pos as int);
                if s[r as int][c as int] {
                    assert(between is Some);
                } else {
                    assert(agrees(board, s, lights, pos + 1)) by {
                        assert forall|x: int, y: int|
                            board.inside(x, y) && ahead(board, x, y, pos + 1) implies (
                        #[trigger] s[x][y]) == lights[x][y] by {
                            if x * w + y == pos {
                                lemma_same_cell(w as int, x, y, r as int, c as int);
                            } else {
                                assert(ahead(board, x, y, pos as int));
                            }
                        }
                    }
                }
            }
        }
    }
}

impl Solver for Naive {
    /// A solution is found exactly when the puzzle has one; what is found
    /// is what `plain_search` says from the first cell on.
    fn solve(&self, field: &Field) -> (res: Option<Solution>)
        ensures
            answers(field@, res),
            seen(res) == plain_search(field@, 0, dark(field@)),
    {
        let h = field.field.len();
        let w = if h > 0 {
            field.field[0].len()
        } else {
            0
        };
        assert(h == field.h);
        assert(h > 0 ==> field@.cells[0].len() == field.w);
        let mut found: Option<Solution> = None;
        let sol = Solution { field: filled_grid(h, field.w, false) };
        let fill = dark_marks(field);
        proof {
            assert(fits(sol@, field@));
            assert forall|x: int, y: int| field@.inside(x, y) implies !lit(field@, sol@, x, y) by {
                assert(sol@[x].len() == field.w);
                if sees_any(field@, sol@, x, y) {
                    let (i, k) = choose|i: int, k: int|
                        0 <= i < 4 && sees(field@, sol@, x, y, direction(i), k);
                    let m = moved(x, y, direction(i), k);
                    assert(sol@[m.0].len() == field.w);
                }
            }
            assert(steady(field@, sol@, fill@, 0)) by {
                assert forall|x: int, y: int| field@.inside(x, y) && #[trigger] sol@[x][y] implies false by {
                    assert(sol@[x].len() == field.w);
                }
            }
        }
        let ghost blank = sol@;
        proof {
            assert(blank =~= dark(field@)) by {
                assert forall|x: int| 0 <= x < blank.len() implies #[trigger] blank[x] =~= dark(
                    field@,
                )[x] by {}
            }
        }
        Self::rec(field, 0, sol, fill, &mut found);
        proof {
            if solvable(field@) {
                let s = choose|s: Seq<Seq<bool>>| solves(field@, s);
                assert(agrees(field@, s, blank, 0)) by {
                    assert forall|x: int, y: int|
                        field@.inside(x, y) && ahead(field@, x, y, 0) implies (#[trigger] s[x][y])
                        == blank[x][y] by {
                        assert(x * field@.w + y >= 0) by (nonlinear_arith)
                            requires
                                x >= 0,
                                y >= 0,
                                field@.w >= 0,
                        ;
                    }
                }
            }
        }
        found
    }
}

} // verus!
