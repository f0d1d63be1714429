//! Constraint-first search in two separate stages, so that progress through
//! the second stage can be shown: the first stage lists every way to settle
//! all numbered walls, the second completes them one by one.

use vstd::prelude::*;
use crate::field::{fits, Board, Field, Solution};
use crate::progress_bar::ProgressBar;
use crate::solver::cfs::{
    glare, index_choices, is_choice, numbered_cells, open_fill, shone, stuck, CFS,
};
use crate::solver::ways::{
    cell_search, choices, dark, first_found, lemma_first_stays, lemma_hopeless, listed,
    open_grid, picks_of, seen, shut, staged_on, walls_of, ways_from, ways_upto,
};
use crate::solver::keep::{
    beside_wall, closed_around, decided, grid_of, grown, keeps, lemma_closed_kept,
    lemma_decided_zero, lemma_disable, lemma_glare_sees, lemma_kept_at_end,
    lemma_narrowed_chain, lemma_not_stuck, lemma_put_keeps, lemma_put_model, lemma_put_tame,
    lemma_put_works, lemma_same_cells, lemma_same_fill, lemma_start_tame, lemma_wanted,
    narrowed, next_to, tame, wanted, with_disabled,
};
use crate::solver::naive::{ahead, lemma_cell_of_index, lemma_same_cell};
use crate::solver::{answers, lemma_lights_upto_all, light_at, miscounted, solvable};
use crate::solver::{
    copy_grid, fill_sized, filled_grid, solvable_input, solves, with_light, Cell, Solver, TempFill,
    OVERLAP_AKARI,
};

verus! {

/// Constraint-first search that keeps count of its progress.
pub struct CFSwithPB;

/// The state `way` has grown out of the given state by settling the walls
/// from `from` on: it fits its lights, of which none shines on another;
/// it has the given lights, and every light more stands beside one of
/// those walls; it allows a light only where the given state allows one;
/// and no neighbour of any of those walls may still get a light.
pub open spec fn settled_from(
    board: Board,
    walls: Seq<(usize, usize)>,
    from: int,
    lights: Seq<Seq<bool>>,
    fill: Seq<Vec<Cell>>,
    way: (Solution, TempFill),
) -> bool {
    &&& tame(board, way.0@, way.1@)
    &&& grown(board, lights, way.0@)
    &&& narrowed(board, fill, way.1@)
    &&& forall|i: int|
        from <= i < walls.len() ==> closed_around(
            board,
            way.1@,
            (#[trigger] walls[i]).0 as int,
            walls[i].1 as int,
        )
    &&& forall|x: int, y: int|
        board.inside(x, y) && (#[trigger] way.0@[x][y]) && !lights[x][y] ==> beside_wall(
            walls,
            from,
            x,
            y,
        )
}

/// One of the listed states keeps the solution `goal` in reach.
pub open spec fn some_keeps(board: Board, list: Seq<(Solution, TempFill)>, goal: Seq<Seq<bool>>) -> bool {
    exists|i: int| 0 <= i < list.len() && #[trigger] keeps(board, list[i].0@, list[i].1@, goal)
}

/// One of the first `p` choices is the choice that the solution `goal` makes around `(r, c)`.
pub open spec fn chosen_before(
    board: Board,
    picks: Seq<Vec<usize>>,
    p: int,
    goal: Seq<Seq<bool>>,
    r: int,
    c: int,
) -> bool {
    exists|q: int| 0 <= q < p && (#[trigger] picks[q])@ == wanted(board, goal, r, c)
}

impl CFSwithPB {
    /// Walks the cells from `cell_pos` on, trying a light and then none on
    /// each that may get one. A branch is dropped when a dark cell can no
    /// longer be lit; a full placement is kept if the verifier accepts it.
    /// A solution in reach is found; what is found is what `cell_search`
    /// says.
    pub fn rec(
        field: &Field,
        cell_pos: usize,
        sol: Solution,
        fill: TempFill,
        found: &mut Option<Solution>,
    )
        requires
            solvable_input(field),
            cell_pos <= field.h * field.w,
            tame(field@, sol@, fill@),
            decided(field@, fill@, cell_pos as int),
            *old(found) matches Some(s) ==> solves(field@, s@),
        ensures
            *final(found) matches Some(s) ==> solves(field@, s@),
            *old(found) is Some ==> *final(found) == *old(found),
            (exists|goal: Seq<Seq<bool>>| keeps(field@, sol@, fill@, goal)) ==> *final(found) is Some,
            *old(found) is None ==> seen(*final(found)) == cell_search(
                field@,
                cell_pos as int,
                sol@,
                grid_of(fill@),
            ),
        decreases field.h * field.w - cell_pos,
    {
        let (h, w) = (field.h, field.w);
        let ghost board = field@;
        let ghost lights = sol@;
        let ghost marks = fill@;
        let ghost hope = exists|goal: Seq<Seq<bool>>| keeps(board, lights, marks, goal);
        let ghost goal = choose|goal: Seq<Seq<bool>>| keeps(board, lights, marks, goal);

        if found.is_some() {
            return ;
        }
        if cell_pos == h * w {
            proof {
                if hope {
                    lemma_kept_at_end(board, lights, marks, goal);
                }
            }
            if Self::_check(field, &sol).is_ok() {
                *found = Some(sol);
            }
            return ;
        }
        let ghost grid = grid_of(marks);
        proof {
            lemma_hopeless(board, marks);
        }
        if Self::has_unfeasible_cell(field, &fill) {
            proof {
                if hope {
                    let (x, y) = choose|x: int, y: int| board.inside(x, y) && stuck(marks, board, x, y);
                    lemma_not_stuck(board, lights, marks, goal, x, y);
                }
            }
            return ;
        }
        proof {
            lemma_cell_of_index(cell_pos as int, h as int, w as int);
        }
        let (r, c) = (cell_pos / w, cell_pos % w);
        assert(fill@[r as int]@.len() == w);
        proof {
            assert(grid[r as int][c as int] == marks[r as int]@[c as int]);
        }
        if fill[r][c].can_put_akari() {
            let lamps = sol.duplicate();
            let state = copy_grid(&fill);
            proof {
                lemma_same_fill(board, lights, marks, state@);
                assert(grid_of(state@) =~= grid);
                lemma_glare_sees(board, lights, state@, r as int, c as int);
            }
            let ghost copied = state@;
            if let Ok((s2, f2)) = Self::put_akari(field, r, c, lamps, state) {
                proof {
                    lemma_put_model(board, lights, copied, f2@, r as int, c as int);
                    lemma_put_tame(board, lights, copied, f2@, r as int, c as int);
                    assert(decided(board, f2@, cell_pos + 1)) by {
                        assert forall|x: int, y: int|
                            board.inside(x, y) && ahead(board, x, y, cell_pos + 1) implies (
                        #[trigger] f2@[x]@[y]) != Cell::Fillable by {
                            if x * w + y == cell_pos {
                                lemma_same_cell(w as int, x, y, r as int, c as int);
                            } else {
                                assert(ahead(board, x, y, cell_pos as int));
                                if f2@[x]@[y] == Cell::Fillable {
                                    assert(copied[x]@[y] == Cell::Fillable);
                                    assert(marks[x]@[y] == Cell::Fillable);
                                }
                            }
                        }
                    }
                    if hope && goal[r as int][c as int] {
                        assert(keeps(board, lights, copied, goal));
                        lemma_put_keeps(board, lights, copied, f2@, r as int, c as int, goal);
                    }
                }
                Self::rec(field, cell_pos + 1, s2, f2, found);
            } else {
                proof {
                    if hope && goal[r as int][c as int] {
                        assert(keeps(board, lights, copied, goal));
                        lemma_put_works(board, lights, copied, r as int, c as int, goal);
                        assert(false);
                    }
                }
            }
        }
        let ghost between = *found;
        let mut state = fill;
        let mut cell = state[r][c];
        cell.disable();
        state[r][c] = cell;
        proof {
            assert(grid_of(state@) =~= shut(grid, r as int, c as int)) by {
                let a = grid_of(state@);
                let b = shut(grid, r as int, c as int);
                assert forall|x: int| 0 <= x < a.len() implies #[trigger] a[x] =~= b[x] by {
                    if x != r {
                        assert(state@[x] == marks[x]);
                    }
                }
            }
            assert(with_disabled(marks, state@, board, r as int, c as int)) by {
                assert forall|x: int, y: int| board.inside(x, y) implies (#[trigger] state@[x]@[y])
                    == (if x == r && y == c && marks[x]@[y] == Cell::Fillable {
                    Cell::Unfillable(false)
                } else {
                    marks[x]@[y]
                }) by {
                    if x != r {
                        assert(state@[x] == marks[x]);
                    }
                }
            }
            lemma_disable(board, lights, marks, state@, r as int, c as int);
            assert(decided(board, state@, cell_pos + 1)) by {
                assert forall|x: int, y: int|
                    board.inside(x, y) && ahead(board, x, y, cell_pos + 1) implies (
                #[trigger] state@[x]@[y]) != Cell::Fillable by {
                    if x * w + y == cell_pos {
                        lemma_same_cell(w as int, x, y, r as int, c as int);
                    } else {
                        assert(ahead(board, x, y, cell_pos as int));
                        if state@[x]@[y] == Cell::Fillable {
                            assert(marks[x]@[y] == Cell::Fillable);
                        }
                    }
                }
            }
            if hope {
                assert(keeps(board, lights, marks, goal));
                if goal[r as int][c as int] {
                    if marks[r as int]@[c as int] == Cell::Fillable {
                        assert(between is Some);
                    } else {
                        assert forall|x: int, y: int| board.inside(x, y) implies (
                        #[trigger] state@[x]@[y]) == marks[x]@[y] by {}
                        lemma_same_cells(board, lights, marks, state@, goal);
                    }
                } else {
                    assert(!light_at(board, goal, r as int, c as int));
                }
            }
        }
        Self::rec(field, cell_pos + 1, sol, state, found);
    }

    /// Lists the ways to settle the numbered walls from `cons_pos` on,
    /// starting from the given state: each way is the placement and the
    /// tentative state that it leads to. Ways that leave a dark cell
    /// without hope are left out. The list is what `ways_from` says, and
    /// every solution in reach of the given state is in reach of one of
    /// the listed states.
    pub fn enum_constraints(
        field: &Field,
        constraints: &Vec<(usize, usize)>,
        cons_pos: usize,
        sol: Solution,
        fill: TempFill,
    ) -> (res: Vec<(Solution, TempFill)>)
        requires
            field.wf(),
            cons_pos <= constraints@.len(),
            forall|i: int|
                0 <= i < constraints@.len() ==> {
                    &&& (#[trigger] constraints@[i]).0 < field.h
                    &&& constraints@[i].1 < field.w
                    &&& field@.cells[constraints@[i].0 as int][constraints@[i].1 as int].target() is Some
                },
            tame(field@, sol@, fill@),
        ensures
            forall|i: int| 0 <= i < res@.len() ==> settled_from(
                field@,
                constraints@,
                cons_pos as int,
                sol@,
                fill@,
                #[trigger] res@[i],
            ),
            cons_pos == constraints@.len() ==> res@.len() == 1 && res@[0].0@ == sol@ && res@[0].1@
                == fill@,
            listed(res@) == ways_from(
                field@,
                constraints@,
                cons_pos as int,
                sol@,
                grid_of(fill@),
            ),
            forall|goal: Seq<Seq<bool>>|
                #[trigger] keeps(field@, sol@, fill@, goal) ==> some_keeps(field@, res@, goal),
        decreases constraints@.len() - cons_pos,
    {
        let ghost board = field@;
        let ghost lights = sol@;
        let ghost marks = fill@;
        let total = constraints.len();
        if cons_pos == total {
            let mut only: Vec<(Solution, TempFill)> = Vec::new();
            only.push((sol, fill));
            proof {
                assert(listed(only@) =~= seq![(lights, grid_of(marks))]);
                assert(settled_from(board, constraints@, cons_pos as int, lights, marks, only@[0]));
                assert forall|goal: Seq<Seq<bool>>|
                    #[trigger] keeps(board, lights, marks, goal) implies some_keeps(
                    board,
                    only@,
                    goal,
                ) by {
                    assert(keeps(board, only@[0].0@, only@[0].1@, goal));
                }
            }
            return only;
        }
        let mut results: Vec<(Solution, TempFill)> = Vec::new();
        proof {
            lemma_hopeless(board, marks);
            assert(listed(results@) =~= Seq::empty());
        }
        if Self::has_unfeasible_cell(field, &fill) {
            proof {
                assert forall|goal: Seq<Seq<bool>>|
                    #[trigger] keeps(board, lights, marks, goal) implies false by {
                    let (x, y) = choose|x: int, y: int| board.inside(x, y) && stuck(marks, board, x, y);
                    lemma_not_stuck(board, lights, marks, goal, x, y);
                }
            }
            return results;
        }
        let (r, c) = constraints[cons_pos];
        assert(field@.cells[r as int].len() == field.w);
        let k = match field.field[r][c].is_adj() {
            Some(k) => k,
            None => {
                return results;
            },
        };
        let picks = index_choices(k);
        let ghost grid = grid_of(marks);
        let mut p: usize = 0;
        while p < picks.len()
            invariant
                field.wf(),
                grid == grid_of(marks),
                board.cells[r as int][c as int].target() == Some(k as nat),
                picks_of(picks@) == choices(k as nat),
                listed(results@) == ways_upto(
                    board,
                    constraints@,
                    cons_pos as int,
                    lights,
                    grid,
                    p as int,
                ),
                board == field@,
                lights == sol@,
                marks == fill@,
                total == constraints@.len(),
                cons_pos < total,
                forall|i: int|
                    0 <= i < constraints@.len() ==> {
                        &&& (#[trigger] constraints@[i]).0 < field.h
                        &&& constraints@[i].1 < field.w
                        &&& field@.cells[constraints@[i].0 as int][constraints@[i].1 as int].target() is Some
                    },
                tame(board, lights, marks),
                r < field.h,
                c < field.w,
                constraints@[cons_pos as int] == (r, c),
                0 <= p <= picks@.len(),
                forall|i: int, q: int|
                    0 <= i < picks@.len() && 0 <= q < picks@[i]@.len() ==> (
                    #[trigger] picks@[i]@[q]) < 4,
                forall|i: int|
                    0 <= i < results@.len() ==> settled_from(
                        board,
                        constraints@,
                        cons_pos as int,
                        lights,
                        marks,
                        #[trigger] results@[i],
                    ),
                forall|goal: Seq<Seq<bool>>|
                    #[trigger] keeps(board, lights, marks, goal) && chosen_before(
                        board,
                        picks@,
                        p as int,
                        goal,
                        r as int,
                        c as int,
                    ) ==> some_keeps(board, results@, goal),
            decreases picks@.len() - p,
        {
            let ghost before = results@;
            proof {
                assert(picks_of(picks@)[p as int] == picks@[p as int]@);
            }
            if let Some((s2, f2)) = CFS::settle(field, r, c, &picks[p], &sol, &fill) {
                let ghost s2v = s2@;
                let ghost f2v = f2@;
                assert(closed_around(board, f2v, r as int, c as int));
                let mut more = Self::enum_constraints(field, constraints, cons_pos + 1, s2, f2);
                let ghost added = more@;
                results.append(&mut more);
                proof {
                    assert(results@ == before + added);
                    assert(listed(results@) =~= listed(before) + listed(added));
                    assert forall|i: int| 0 <= i < results@.len() implies settled_from(
                        board,
                        constraints@,
                        cons_pos as int,
                        lights,
                        marks,
                        #[trigger] results@[i],
                    ) by {
                        if i < before.len() {
                            assert(results@[i] == before[i]);
                        } else {
                            let way = added[i - before.len()];
                            assert(results@[i] == way);
                            assert(settled_from(board, constraints@, cons_pos + 1, s2v, f2v, way));
                            lemma_narrowed_chain(board, marks, f2v, way.1@);
                            assert(grown(board, lights, way.0@)) by {
                                assert forall|x: int, y: int|
                                    board.inside(x, y) && #[trigger] lights[x][y] implies way.0@[x][y] by {
                                    assert(s2v[x][y]);
                                }
                            }
                            assert forall|x: int, y: int|
                                board.inside(x, y) && (#[trigger] way.0@[x][y])
                                    && !lights[x][y] implies beside_wall(
                                constraints@,
                                cons_pos as int,
                                x,
                                y,
                            ) by {
                                if s2v[x][y] {
                                    assert(next_to(r as int, c as int, x, y));
                                    assert(next_to(
                                        constraints@[cons_pos as int].0 as int,
                                        constraints@[cons_pos as int].1 as int,
                                        x,
                                        y,
                                    ));
                                } else {
                                    assert(beside_wall(constraints@, cons_pos + 1, x, y));
                                    let i = choose|i: int|
                                        cons_pos + 1 <= i < constraints@.len() && next_to(
                                            (#[trigger] constraints@[i]).0 as int,
                                            constraints@[i].1 as int,
                                            x,
                                            y,
                                        );
                                    assert(cons_pos <= i);
                                }
                            }
                            assert forall|w2: int|
                                cons_pos <= w2 < constraints@.len() implies closed_around(
                                board,
                                way.1@,
                                (#[trigger] constraints@[w2]).0 as int,
                                constraints@[w2].1 as int,
                            ) by {
                                if w2 == cons_pos {
                                    assert(constraints@[w2] == (r, c));
                                    assert(closed_around(board, f2v, r as int, c as int));
                                    assert(narrowed(board, f2v, way.1@));
                                    lemma_closed_kept(board, f2v, way.1@, r as int, c as int);
                                } else {
                                    assert(cons_pos + 1 <= w2);
                                }
                            }
                        }
                    }
                    assert forall|goal: Seq<Seq<bool>>|
                        #[trigger] keeps(board, lights, marks, goal) && picks@[p as int]@ == wanted(
                            board,
                            goal,
                            r as int,
                            c as int,
                        ) implies some_keeps(board, results@, goal) by {
                        assert(keeps(board, s2v, f2v, goal));
                        assert(some_keeps(board, added, goal));
                        let i = choose|i: int|
                            0 <= i < added.len() && #[trigger] keeps(
                                board,
                                added[i].0@,
                                added[i].1@,
                                goal,
                            );
                        assert(results@[before.len() + i] == added[i]);
                        assert(keeps(
                            board,
                            results@[before.len() + i].0@,
                            results@[before.len() + i].1@,
                            goal,
                        ));
                    }
                }
            }
            proof {
                assert forall|goal: Seq<Seq<bool>>|
                    #[trigger] keeps(board, lights, marks, goal) && chosen_before(
                        board,
                        picks@,
                        p + 1,
                        goal,
                        r as int,
                        c as int,
                    ) implies some_keeps(board, results@, goal) by {
                    let q = choose|q: int|
                        0 <= q < p + 1 && (#[trigger] picks@[q])@ == wanted(
                            board,
                            goal,
                            r as int,
                            c as int,
                        );
                    if q < p {
                        assert(chosen_before(board, picks@, p as int, goal, r as int, c as int));
                        assert(some_keeps(board, before, goal));
                        let i = choose|i: int|
                            0 <= i < before.len() && #[trigger] keeps(
                                board,
                                before[i].0@,
                                before[i].1@,
                                goal,
                            );
                        assert(results@[i] == before[i]);
                        assert(keeps(board, results@[i].0@, results@[i].1@, goal));
                    }
                }
            }
            p = p + 1;
        }
        proof {
            assert forall|goal: Seq<Seq<bool>>|
                #[trigger] keeps(board, lights, marks, goal) implies some_keeps(
                board,
                results@,
                goal,
            ) by {
                lemma_wanted(board, goal, r as int, c as int, 4);
                assert(board.inside(r as int, c as int));
                assert(!miscounted(board, goal, r as int, c as int));
                lemma_lights_upto_all(board, goal, r as int, c as int);
                assert(is_choice(wanted(board, goal, r as int, c as int), 4, k as nat));
                let q = choose|q: int|
                    0 <= q < picks@.len() && (#[trigger] picks@[q])@ == wanted(
                        board,
                        goal,
                        r as int,
                        c as int,
                    );
                assert(chosen_before(board, picks@, p as int, goal, r as int, c as int));
            }
        }
        results
    }

    /// Puts a light on `(r, c)` and marks what it shines on as lit and closed
    /// to further lights. A cell that already holds a light is left as it
    /// is; any other cell that may not get a light is refused, and so is a
    /// light that would shine on another.
    pub fn put_akari(field: &Field, r: usize, c: usize, sol: Solution, fill: TempFill) -> (res:
        Result<(Solution, TempFill), &'static str>)
        requires
            field.wf(),
            fits(sol@, field@),
            fill_sized(fill@, field@),
            r < field.h,
            c < field.w,
        ensures
            match res {
                Ok((s2, f2)) => {
                    &&& fits(s2@, field@)
                    &&& fill_sized(f2@, field@)
                    &&& if fill@[r as int]@[c as int] == Cell::Fillable {
                        &&& !glare(fill@, sol@, field@, r as int, c as int)
                        &&& s2@ == with_light(sol@, r as int, c as int)
                        &&& forall|x: int, y: int|
                            field@.inside(x, y) ==> (#[trigger] f2@[x]@[y]) == (if shone(
                                fill@,
                                field@,
                                r as int,
                                c as int,
                                x,
                                y,
                            ) {
                                Cell::Unfillable(true)
                            } else {
                                fill@[x]@[y]
                            })
                    } else {
                        &&& sol@[r as int][c as int]
                        &&& s2@ == sol@
                        &&& f2@ == fill@
                    }
                },
                Err(e) => if fill@[r as int]@[c as int] == Cell::Fillable {
                    glare(fill@, sol@, field@, r as int, c as int) && e@ == OVERLAP_AKARI@
                } else {
                    !sol@[r as int][c as int] && e@ == "Given cell is not fillable."@
                },
            },
    {
        CFS::put_akari(field, r, c, sol, fill)
    }

    /// Whether the tentative state can no longer lead to a solution because
    /// some dark cell that may not get a light has no cell left that may
    /// and that could shine on it: none in its row or column before the
    /// nearest wall on either side.
    pub fn has_unfeasible_cell(field: &Field, fill: &TempFill) -> (res: bool)
        requires
            field.wf(),
            fill_sized(fill@, field@),
        ensures
            res == exists|r: int, c: int| field@.inside(r, c) && stuck(fill@, field@, r, c),
    {
        CFS::has_unfeasible_cell(field, fill)
    }
}

impl Solver for CFSwithPB {
    /// A solution is found exactly when the puzzle has one; what is found
    /// is what `staged_on` says.
    fn solve(&self, field: &Field) -> (res: Option<Solution>)
        ensures
            answers(field@, res),
            seen(res) == staged_on(field@),
    {
        let sol = Solution { field: filled_grid(field.h, field.w, false) };
        let constraints = numbered_cells(field);
        let fill = open_fill(field);
        let mut found: Option<Solution> = None;
        let ghost blank = sol@;
        let ghost open = fill@;
        let ghost board = field@;
        proof {
            assert forall|x: int, y: int| board.inside(x, y) implies !(#[trigger] blank[x][y]) by {
                assert(blank[x].len() == field.w);
            }
            lemma_start_tame(board, blank, open);
        }
        let ghost hope = solvable(board);
        let ghost goal = choose|goal: Seq<Seq<bool>>| solves(board, goal);
        proof {
            assert(blank =~= dark(board)) by {
                assert forall|x: int| 0 <= x < blank.len() implies #[trigger] blank[x] =~= dark(
                    board,
                )[x] by {}
            }
        }
        let enumerated = Self::enum_constraints(field, &constraints, 0, sol, fill);
        let ghost ways = listed(enumerated@);
        proof {
            assert(ways == ways_from(board, walls_of(board), 0, dark(board), open_grid(board)));
            assert forall|j: int| 0 <= j < enumerated@.len() implies tame(
                board,
                (#[trigger] enumerated@[j]).0@,
                enumerated@[j].1@,
            ) by {
                assert(settled_from(board, constraints@, 0, blank, open, enumerated@[j]));
            }
            if hope {
                assert(keeps(board, blank, open, goal));
                assert(some_keeps(board, enumerated@, goal));
            }
        }
        let mut progress = ProgressBar::new(enumerated.len());
        let mut i: usize = 0;
        while i < enumerated.len()
            invariant_except_break
                found is None,
                first_found(board, ways, i as int) is None,
            invariant
                solvable_input(field),
                board == field@,
                0 <= i <= enumerated@.len(),
                forall|j: int|
                    0 <= j < enumerated@.len() ==> tame(
                        board,
                        (#[trigger] enumerated@[j]).0@,
                        enumerated@[j].1@,
                    ),
                found matches Some(s) ==> solves(field@, s@),
                found is None ==> forall|j: int|
                    0 <= j < i ==> !#[trigger] keeps(
                        board,
                        enumerated@[j].0@,
                        enumerated@[j].1@,
                        goal,
                    ),
                ways == listed(enumerated@),
            ensures
                seen(found) == first_found(board, ways, ways.len() as int),
                found matches Some(s) ==> solves(field@, s@),
                found is None ==> forall|j: int|
                    0 <= j < enumerated@.len() ==> !#[trigger] keeps(
                        board,
                        enumerated@[j].0@,
                        enumerated@[j].1@,
                        goal,
                    ),
            decreases enumerated@.len() - i,
        {
            assert(tame(board, enumerated@[i as int].0@, enumerated@[i as int].1@));
            let start = enumerated[i].0.duplicate();
            let state = copy_grid(&enumerated[i].1);
            proof {
                lemma_same_fill(board, start@, enumerated@[i as int].1@, state@);
                lemma_decided_zero(board, state@);
                if keeps(board, enumerated@[i as int].0@, enumerated@[i as int].1@, goal) {
                    assert(keeps(board, start@, state@, goal));
                }
            }
            proof {
                assert(grid_of(state@) =~= ways[i as int].1);
            }
            Self::rec(field, 0, start, state, &mut found);
            progress.tick();
            if found.is_some() {
                proof {
                    lemma_first_stays(board, ways, i + 1, ways.len() as int);
                }
                break ;
            }
            i = i + 1;
        }
        progress.finish();
        proof {
            if hope && found is None {
                let j = choose|j: int|
                    0 <= j < enumerated@.len() && #[trigger] keeps(
                        board,
                        enumerated@[j].0@,
                        enumerated@[j].1@,
                        goal,
                    );
                assert(false);
            }
        }
        found
    }
}

} // verus!
