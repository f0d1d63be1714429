//! Constraint-first search: the numbered walls are settled before the
//! remaining cells, since they bind few cells and bind them hard.

use std::time::{Duration, Instant};
use vstd::prelude::*;
use itertools::Itertools;
use crate::field::{fits, Board, Field, Solution, State};
use crate::solver::{
    copy_grid, fill_sized, filled_grid, light_at, solvable_input, solves, with_light, Cell, Solver,
    TempFill, OVERLAP_AKARI,
};
use crate::solver::keep::{
    closed_around, closed_model, decided, grid_of, grown, keeps, lemma_disable,
    lemma_glare_sees, lemma_kept_at_end, lemma_narrowed_chain, lemma_not_stuck, lemma_put_keeps,
    lemma_put_model, lemma_put_tame, lemma_put_works, lemma_puts_fail, lemma_same_cells,
    lemma_same_fill, lemma_start_tame, lemma_wanted, narrowed, next_to, put_model, puts_model,
    settle_model, tame, wanted, wanted_upto, with_disabled,
};
use crate::solver::naive::{ahead, lemma_cell_of_index, lemma_same_cell};
use crate::solver::ways::{
    choices, dark, found_on, lemma_hopeless, lemma_is_choices, lists_choices, open_grid,
    picks_of, row_walls, search, search_upto, seen, shut, walls_of, walls_upto,
};
use crate::solver::{answers, lemma_lights_upto_all, miscounted, solvable};
use crate::utility::{direction, lemma_ray_from_inside, moved, reach, run, GridUtility, ADJ};

verus! {

/// A point in time of the monotonic clock.
#[verifier::external_type_specification]
#[verifier::external_body]
pub struct ExInstant(Instant);

/// Reads the monotonic clock (`Instant::now`). Nothing is promised of the reading.
#[verifier::external_body]
fn clock() -> Instant {
    Instant::now()
}

/// The time that has passed since `start` (`Instant::elapsed`). Nothing is
/// promised of the amount.
#[verifier::external_body]
fn elapsed(start: &Instant) -> Duration {
    start.elapsed()
}

/// The whole seconds of a span of time (`Duration::as_secs`). Nothing is
/// stated of the number.
#[verifier::external_body]
fn whole_seconds(span: &Duration) -> u64 {
    span.as_secs()
}

/// Where a search reads the seconds it has run: the machine's clock, or
/// readings given beforehand.
pub struct Watch {
    /// The point in time from which the machine's clock is counted, if it is read.
    origin: Option<Instant>,
    /// The readings given beforehand.
    readings: Vec<u64>,
    /// How many of them were handed out.
    taken: usize,
}

/// The reading that is handed out after `taken` of the `readings`: the
/// next one, the last one again once they have run out, zero where there
/// is none.
pub open spec fn reading_at(readings: Seq<u64>, taken: int) -> u64 {
    if 0 <= taken < readings.len() {
        readings[taken]
    } else if readings.len() > 0 {
        readings[readings.len() - 1]
    } else {
        0
    }
}

impl Watch {
    /// The readings given beforehand; `None` where the machine's clock is read.
    pub closed spec fn script(&self) -> Option<Seq<u64>> {
        if self.origin is Some {
            None
        } else {
            Some(self.readings@)
        }
    }

    /// How many of the given readings were handed out.
    pub closed spec fn taken(&self) -> int {
        self.taken as int
    }

    /// No reading ever comes up to the limit: there is no limit, or the
    /// readings were given beforehand and each lies below it.
    pub open spec fn patient(&self, timeout: Option<u64>) -> bool {
        match timeout {
            None => true,
            Some(t) => t > 0 && (self.script() matches Some(rs) && forall|i: int|
                0 <= i < rs.len() ==> (#[trigger] rs[i]) < t),
        }
    }

    /// A watch on the machine's clock, started now.
    pub fn started() -> (res: Self)
        ensures
            res.script() is None,
    {
        Watch { origin: Some(clock()), readings: Vec::new(), taken: 0 }
    }

    /// A watch that hands out `readings` in turn.
    pub fn replay(readings: Vec<u64>) -> (res: Self)
        ensures
            res.script() == Some(readings@),
            res.taken() == 0,
    {
        Watch { origin: None, readings, taken: 0 }
    }

    /// The seconds that have passed. Of the machine's clock nothing is
    /// known; of given readings the next one comes.
    pub fn read(&mut self) -> (res: u64)
        ensures
            final(self).script() == old(self).script(),
            old(self).script() matches Some(rs) ==> {
                &&& res == reading_at(rs, old(self).taken())
                &&& final(self).taken() == (if old(self).taken() < rs.len() {
                    old(self).taken() + 1
                } else {
                    old(self).taken()
                })
            },
    {
        match self.origin {
            Some(start) => {
                let waited = elapsed(&start);
                whole_seconds(&waited)
            },
            None => {
                let n = self.readings.len();
                if self.taken < n {
                    let at = self.readings[self.taken];
                    self.taken = self.taken + 1;
                    at
                } else if n > 0 {
                    self.readings[n - 1]
                } else {
                    0
                }
            },
        }
    }
}

/// No reading of the watch comes up to a limit of `t` seconds or more.
pub open spec fn long_enough(watch: Watch, t: u64) -> bool {
    forall|longer: u64| longer >= t ==> #[trigger] watch.patient(Some(longer))
}

/// Some limit is long enough, and so is every longer one: readings given
/// beforehand, none of them the largest number there is, all lie below it.
pub proof fn lemma_some_limit_is_enough(watch: Watch)
    requires
        watch.script() matches Some(rs) && forall|i: int|
            0 <= i < rs.len() ==> (#[trigger] rs[i]) < u64::MAX,
    ensures
        exists|t: u64| long_enough(watch, t),
{
    assert(long_enough(watch, u64::MAX));
}

/// `c` picks `k` of the indices below `n`, in rising order.
pub open spec fn is_choice(c: Seq<usize>, n: nat, k: nat) -> bool {
    &&& c.len() == k
    &&& forall|i: int| 0 <= i < k ==> (#[trigger] c[i]) < n
    &&& forall|i: int, j: int| 0 <= i < j < k ==> c[i] < c[j]
}

/// `a` comes before `b` in dictionary order.
pub open spec fn lex_before(a: Seq<usize>, b: Seq<usize>) -> bool {
    exists|p: int|
        0 <= p < a.len() && p < b.len() && a[p] < #[trigger] b[p] && forall|q: int|
            0 <= q < p ==> a[q] == b[q]
}

/// All ways to pick `k` of the indices below `n` (`Itertools::combinations`
/// on `0..n`): every pick is listed once, each in rising order, and the list
/// is in dictionary order.
#[verifier::external_body]
fn index_combinations(n: usize, k: usize) -> (res: Vec<Vec<usize>>)
    requires
        k <= n <= 4,
    ensures
        forall|i: int| 0 <= i < res@.len() ==> is_choice((#[trigger] res@[i])@, n as nat, k as nat),
        forall|i: int, j: int|
            0 <= i < j < res@.len() ==> lex_before((#[trigger] res@[i])@, (#[trigger] res@[j])@),
        forall|c: Seq<usize>|
            is_choice(c, n as nat, k as nat) ==> exists|i: int|
                0 <= i < res@.len() && (#[trigger] res@[i])@ == c,
{
    (0..n).combinations(k).collect()
}

/// A pick in rising order holds at each place at least the place's number.
proof fn lemma_rising_from(c: Seq<usize>, n: nat, i: int)
    requires
        is_choice(c, n, c.len()),
        0 <= i < c.len(),
    ensures
        c[i] >= i,
    decreases i,
{
    if i > 0 {
        lemma_rising_from(c, n, i - 1);
    }
}

/// All ways to pick `k` of the four directions, each in the order of the
/// directions, the ways in dictionary order; none where `k` is above four.
pub fn index_choices(k: usize) -> (res: Vec<Vec<usize>>)
    ensures
        forall|i: int| 0 <= i < res@.len() ==> is_choice((#[trigger] res@[i])@, 4, k as nat),
        forall|i: int, q: int|
            0 <= i < res@.len() && 0 <= q < res@[i]@.len() ==> (#[trigger] res@[i]@[q]) < 4,
        forall|i: int, j: int|
            0 <= i < j < res@.len() ==> lex_before((#[trigger] res@[i])@, (#[trigger] res@[j])@),
        forall|c: Seq<usize>|
            is_choice(c, 4, k as nat) ==> exists|i: int|
                0 <= i < res@.len() && (#[trigger] res@[i])@ == c,
        picks_of(res@) == choices(k as nat),
{
    if k > 4 {
        let none: Vec<Vec<usize>> = Vec::new();
        proof {
            assert forall|c: Seq<usize>| !is_choice(c, 4, k as nat) by {
                if is_choice(c, 4, k as nat) {
                    lemma_rising_from(c, 4, k - 1);
                }
            }
            assert(lists_choices(picks_of(none@), k as nat));
            lemma_is_choices(picks_of(none@), k as nat);
        }
        return none;
    }
    let res = index_combinations(4, k);
    assert forall|i: int, q: int| 0 <= i < res@.len() && 0 <= q < res@[i]@.len() implies (
    #[trigger] res@[i]@[q]) < 4 by {
        assert(is_choice(res@[i]@, 4, k as nat));
    }
    proof {
        let list = picks_of(res@);
        assert forall|i: int| 0 <= i < list.len() implies is_choice(#[trigger] list[i], 4, k as nat) by {
            assert(is_choice(res@[i]@, 4, k as nat));
        }
        assert forall|i: int, j: int| 0 <= i < j < list.len() implies lex_before(
            #[trigger] list[i],
            #[trigger] list[j],
        ) by {
            assert(lex_before(res@[i]@, res@[j]@));
        }
        assert forall|c: Seq<usize>| is_choice(c, 4, k as nat) implies exists|i: int|
            0 <= i < list.len() && #[trigger] list[i] == c by {
            let i = choose|i: int| 0 <= i < res@.len() && (#[trigger] res@[i])@ == c;
            assert(list[i] == c);
        }
        lemma_is_choices(list, k as nat);
    }
    res
}

/// The walk from `(r, c)` in direction `d` passes `k` cells without meeting a wall.
pub open spec fn passable(
    fill: Seq<Vec<Cell>>,
    board: Board,
    r: int,
    c: int,
    d: (usize, usize),
    k: int,
) -> bool {
    forall|j: int|
        #![trigger moved(r, c, d, j)]
        1 <= j <= k ==> board.inside(moved(r, c, d, j).0, moved(r, c, d, j).1) && fill[moved(
            r,
            c,
            d,
            j,
        ).0]@[moved(r, c, d, j).1] != Cell::Nil
}

/// The walk from `(r, c)` in direction `d` meets a light at its `k`-th step.
pub open spec fn walk_hits(
    fill: Seq<Vec<Cell>>,
    lights: Seq<Seq<bool>>,
    board: Board,
    r: int,
    c: int,
    d: (usize, usize),
    k: int,
) -> bool {
    &&& k >= 1
    &&& passable(fill, board, r, c, d, k - 1)
    &&& light_at(board, lights, moved(r, c, d, k).0, moved(r, c, d, k).1)
}

/// A light put on `(r, c)` would shine on another light.
pub open spec fn glare(
    fill: Seq<Vec<Cell>>,
    lights: Seq<Seq<bool>>,
    board: Board,
    r: int,
    c: int,
) -> bool {
    exists|i: int, k: int| 0 <= i < 4 && walk_hits(fill, lights, board, r, c, direction(i), k)
}

/// The walk from `(r, c)` in direction `d` is at `(x, y)` after `k` steps,
/// having met no wall.
pub open spec fn walk_covers(
    fill: Seq<Vec<Cell>>,
    board: Board,
    r: int,
    c: int,
    d: (usize, usize),
    k: int,
    x: int,
    y: int,
) -> bool {
    &&& k >= 1
    &&& passable(fill, board, r, c, d, k)
    &&& moved(r, c, d, k) == (x, y)
}

/// `(x, y)` is `(r, c)` or a cell that a light on `(r, c)` shines on, as far
/// as the first `i` directions and `k` more steps in the next one go.
pub open spec fn touched(
    fill: Seq<Vec<Cell>>,
    board: Board,
    r: int,
    c: int,
    x: int,
    y: int,
    i: int,
    k: int,
) -> bool {
    (x == r && y == c) || exists|i2: int, k2: int|
        0 <= i2 < 4 && #[trigger] walk_covers(fill, board, r, c, direction(i2), k2, x, y) && (i2 < i
            || (i2 == i && k2 <= k))
}

/// `(x, y)` is `(r, c)` or a cell that a light on `(r, c)` shines on.
pub open spec fn shone(fill: Seq<Vec<Cell>>, board: Board, r: int, c: int, x: int, y: int) -> bool {
    touched(fill, board, r, c, x, y, 4, 0)
}

/// The walk from `(r, c)` in direction `d` comes, without meeting a wall,
/// to a cell `k` steps away that may still get a light.
pub open spec fn finds_candidate(
    fill: Seq<Vec<Cell>>,
    board: Board,
    r: int,
    c: int,
    d: (usize, usize),
    k: int,
) -> bool {
    &&& k >= 1
    &&& passable(fill, board, r, c, d, k)
    &&& fill[moved(r, c, d, k).0]@[moved(r, c, d, k).1] == Cell::Fillable
}

/// Some cell that may still get a light could shine on `(r, c)`: it lies
/// in line with the cell, with no wall in between.
pub open spec fn has_candidate(fill: Seq<Vec<Cell>>, board: Board, r: int, c: int) -> bool {
    exists|i: int, k: int| 0 <= i < 4 && finds_candidate(fill, board, r, c, direction(i), k)
}

/// The cell is dark, may not get a light, and no cell that could shine on it may.
pub open spec fn stuck(fill: Seq<Vec<Cell>>, board: Board, r: int, c: int) -> bool {
    fill[r]@[c] == Cell::Unfillable(false) && !has_candidate(fill, board, r, c)
}

/// The search has run out of time: a limit is set and that many seconds have passed.
pub open spec fn out_of_time(elapsed: u64, timeout: Option<u64>) -> bool {
    timeout matches Some(t) && elapsed >= t
}

/// Constraint-first search with an optional limit on its running time.
#[derive(Clone, Copy, Debug)]
pub struct CFS {
    /// The limit in seconds.
    timeout: Option<u64>,
}

impl CFS {
    /// The limit in seconds, if one is set.
    pub closed spec fn limit(&self) -> Option<u64> {
        self.timeout
    }

    /// A solver that gives up after `timeout` seconds, or never.
    pub fn new(timeout: Option<u64>) -> (res: Self)
        ensures
            res.limit() == timeout,
    {
        Self { timeout }
    }

    /// Whether a search that has run for `elapsed` seconds must stop.
    pub fn timed_out(elapsed: u64, timeout: Option<u64>) -> (res: bool)
        ensures
            res == out_of_time(elapsed, timeout),
    {
        match timeout {
            Some(t) => elapsed >= t,
            None => false,
        }
    }

    /// Whether some cell that could shine on `(r, c)` may still get a light:
    /// each of the four walks from the cell goes on to the first wall.
    fn can_be_lit(field: &Field, fill: &TempFill, r: usize, c: usize) -> (res: bool)
        requires
            field.wf(),
            fill_sized(fill@, field@),
            r < field.h,
            c < field.w,
        ensures
            res == has_candidate(fill@, field@, r as int, c as int),
    {
        let (h, w) = (field.h, field.w);
        let ghost board = field@;
        let mut i: usize = 0;
        while i < 4
            invariant
                field.wf(),
                fill_sized(fill@, field@),
                board == field@,
                h == field.h,
                w == field.w,
                r < h,
                c < w,
                0 <= i <= 4,
                forall|i2: int, k: int|
                    0 <= i2 < i ==> !finds_candidate(
                        fill@,
                        board,
                        r as int,
                        c as int,
                        direction(i2),
                        k,
                    ),
            decreases 4 - i,
        {
            let ghost d = direction(i as int);
            let cells = (r, c).while_dir(h, w, ADJ[i]);
            proof {
                lemma_ray_from_inside((r, c), h, w, d);
            }
            let mut k: usize = 0;
            let mut blocked = false;
            while k < cells.len() && !blocked
                invariant
                    field.wf(),
                    fill_sized(fill@, field@),
                    board == field@,
                    h == field.h,
                    w == field.w,
                    r < h,
                    c < w,
                    0 <= i < 4,
                    d == direction(i as int),
                    cells@ == run((r, c), h, w, d),
                    cells@.len() == reach((r, c), h, w, d),
                    forall|j: int|
                        0 <= j < reach((r, c), h, w, d) ==> {
                            let m = moved(r as int, c as int, d, j + 1);
                            &&& 0 <= m.0 < h
                            &&& 0 <= m.1 < w
                            &&& (#[trigger] run((r, c), h, w, d)[j]) == (m.0 as usize, m.1 as usize)
                        },
                    0 <= k <= cells@.len(),
                    passable(fill@, board, r as int, c as int, d, k as int),
                    blocked ==> k < cells@.len() && !passable(
                        fill@,
                        board,
                        r as int,
                        c as int,
                        d,
                        k + 1,
                    ),
                    forall|j: int|
                        #![trigger moved(r as int, c as int, d, j)]
                        1 <= j <= k ==> fill@[moved(r as int, c as int, d, j).0]@[moved(
                            r as int,
                            c as int,
                            d,
                            j,
                        ).1] != Cell::Fillable,
                decreases cells@.len() - k, if blocked { 0int } else { 1int },
            {
                let (nr, nc) = cells[k];
                let ghost m = moved(r as int, c as int, d, k + 1);
                assert(m == (nr as int, nc as int));
                assert(fill@[nr as int]@.len() == w);
                match fill[nr][nc] {
                    Cell::Fillable => {
                        proof {
                            assert(passable(fill@, board, r as int, c as int, d, k + 1)) by {
                                assert forall|j: int|
                                    #![trigger moved(r as int, c as int, d, j)]
                                    1 <= j <= k + 1 implies board.inside(
                                    moved(r as int, c as int, d, j).0,
                                    moved(r as int, c as int, d, j).1,
                                ) && fill@[moved(r as int, c as int, d, j).0]@[moved(
                                    r as int,
                                    c as int,
                                    d,
                                    j,
                                ).1] != Cell::Nil by {
                                    if j > k {
                                        assert(moved(r as int, c as int, d, j) == m);
                                    }
                                }
                            }
                            assert(finds_candidate(
                                fill@,
                                board,
                                r as int,
                                c as int,
                                direction(i as int),
                                k + 1,
                            ));
                        }
                        return true;
                    },
                    Cell::Nil => {
                        blocked = true;
                        assert(!passable(fill@, board, r as int, c as int, d, k + 1)) by {
                            assert(moved(r as int, c as int, d, k + 1) == m);
                        }
                    },
                    Cell::Unfillable(_) => {
                        proof {
                            assert(passable(fill@, board, r as int, c as int, d, k + 1)) by {
                                assert forall|j: int|
                                    #![trigger moved(r as int, c as int, d, j)]
                                    1 <= j <= k + 1 implies board.inside(
                                    moved(r as int, c as int, d, j).0,
                                    moved(r as int, c as int, d, j).1,
                                ) && fill@[moved(r as int, c as int, d, j).0]@[moved(
                                    r as int,
                                    c as int,
                                    d,
                                    j,
                                ).1] != Cell::Nil by {
                                    if j > k {
                                        assert(moved(r as int, c as int, d, j) == m);
                                    }
                                }
                            }
                            assert forall|j: int|
                                #![trigger moved(r as int, c as int, d, j)]
                                1 <= j <= k + 1 implies fill@[moved(r as int, c as int, d, j).0]@[moved(
                                r as int,
                                c as int,
                                d,
                                j,
                            ).1] != Cell::Fillable by {
                                if j > k {
                                    assert(moved(r as int, c as int, d, j) == m);
                                }
                            }
                        }
                        k = k + 1;
                    },
                }
            }
            proof {
                if !blocked {
                    let edge = moved(r as int, c as int, d, k + 1);
                    assert(!board.inside(edge.0, edge.1));
                    assert(!passable(fill@, board, r as int, c as int, d, k + 1));
                }
                assert forall|k2: int| !finds_candidate(
                    fill@,
                    board,
                    r as int,
                    c as int,
                    direction(i as int),
                    k2,
                ) by {
                    if k2 > k {
                        if passable(fill@, board, r as int, c as int, d, k2) {
                            lemma_passable_shorter(fill@, board, r as int, c as int, d, k + 1, k2);
                        }
                    } else if k2 >= 1 {
                        assert(moved(r as int, c as int, d, k2) == moved(r as int, c as int, d, k2));
                    }
                }
            }
            i = i + 1;
        }
        false
    }

    /// Whether the tentative state can no longer lead to a solution because
    /// some dark cell that may not get a light has no cell left that may
    /// and that could shine on it: none in its row or column before the
    /// nearest wall on either side.
    pub fn has_unfeasible_cell(field: &Field, fill: &TempFill) -> (res: bool)
        requires
            field.wf(),
            fill_sized(fill@, field@),
        ensures
            res == exists|r: int, c: int| field@.inside(r, c) && stuck(fill@, field@, r, c),
    {
        let mut r: usize = 0;
        while r < field.h
            invariant
                field.wf(),
                fill_sized(fill@, field@),
                0 <= r <= field.h,
                forall|x: int, y: int| 0 <= x < r && 0 <= y < field.w ==> !stuck(fill@, field@, x, y),
            decreases field.h - r,
        {
            let mut c: usize = 0;
            while c < field.w
                invariant
                    field.wf(),
                    fill_sized(fill@, field@),
                    0 <= r < field.h,
                    0 <= c <= field.w,
                    forall|x: int, y: int|
                        0 <= x < r && 0 <= y < field.w ==> !stuck(fill@, field@, x, y),
                    forall|y: int| 0 <= y < c ==> !stuck(fill@, field@, r as int, y),
                decreases field.w - c,
            {
                assert(fill@[r as int]@.len() == field.w);
                let dark = match fill[r][c] {
                    Cell::Unfillable(bright) => !bright,
                    _ => false,
                };
                if dark {
                    if !Self::can_be_lit(field, fill, r, c) {
                        assert(field@.inside(r as int, c as int) && stuck(
                            fill@,
                            field@,
                            r as int,
                            c as int,
                        ));
                        return true;
                    }
                }
                c = c + 1;
            }
            r = r + 1;
        }
        false
    }

    /// Puts a light on `(r, c)` and marks what it shines on as lit and closed
    /// to further lights. A cell that already holds a light is left as it
    /// is; any other cell that may not get a light is refused, and so is a
    /// light that would shine on another.
    pub fn put_akari(field: &Field, r: usize, c: usize, sol: Solution, fill: TempFill) -> (res:
        Result<(Solution, TempFill), &'static str>)
        requires
            field.wf(),
            fits(sol@, field@),
            fill_sized(fill@, field@),
            r < field.h,
            c < field.w,
        ensures
            match res {
                Ok((s2, f2)) => {
                    &&& fits(s2@, field@)
                    &&& fill_sized(f2@, field@)
                    &&& if fill@[r as int]@[c as int] == Cell::Fillable {
                        &&& !glare(fill@, sol@, field@, r as int, c as int)
                        &&& s2@ == with_light(sol@, r as int, c as int)
                        &&& forall|x: int, y: int|
                            field@.inside(x, y) ==> (#[trigger] f2@[x]@[y]) == (if shone(
                                fill@,
                                field@,
                                r as int,
                                c as int,
                                x,
                                y,
                            ) {
                                Cell::Unfillable(true)
                            } else {
                                fill@[x]@[y]
                            })
                    } else {
                        &&& sol@[r as int][c as int]
                        &&& s2@ == sol@
                        &&& f2@ == fill@
                    }
                },
                Err(e) => if fill@[r as int]@[c as int] == Cell::Fillable {
                    glare(fill@, sol@, field@, r as int, c as int) && e@ == OVERLAP_AKARI@
                } else {
                    !sol@[r as int][c as int] && e@ == "Given cell is not fillable."@
                },
            },
    {
        let (h, w) = (field.h, field.w);
        let ghost board = field@;
        let ghost lights = sol@;
        let ghost first = fill@;
        let mut lamps = sol;
        let mut state = fill;
        assert(state@[r as int]@.len() == w);
        assert(lamps@[r as int].len() == w);
        if let Cell::Fillable = state[r][c] {
            state[r][c] = Cell::Unfillable(true);
        } else if lamps.field[r][c] {
            return Ok((lamps, state));
        } else {
            return Err("Given cell is not fillable.");
        }
        lamps.field[r][c] = true;
        proof {
            assert(lamps@ =~= with_light(lights, r as int, c as int)) by {
                assert forall|x: int| 0 <= x < lamps@.len() implies #[trigger] lamps@[x] == with_light(
                    lights,
                    r as int,
                    c as int,
                )[x] by {
                    if x == r {
                        assert(lamps@[x] =~= lights[x].update(c as int, true));
                    }
                }
            }
            assert(fits(lamps@, board)) by {
                assert forall|x: int| 0 <= x < h implies (#[trigger] lamps@[x]).len() == w by {
                    assert(lights[x].len() == w);
                }
            }
            assert forall|x: int, y: int| board.inside(x, y) implies (#[trigger] state@[x]@[y]) == (
            if touched(first, board, r as int, c as int, x, y, 0, 0) {
                Cell::Unfillable(true)
            } else {
                first[x]@[y]
            }) by {
                if x == r && y == c {
                } else {
                    assert(state@[x]@[y] == first[x]@[y]);
                    if touched(first, board, r as int, c as int, x, y, 0, 0) {
                        let (i2, k2) = choose|i2: int, k2: int|
                            0 <= i2 < 4 && #[trigger] walk_covers(
                                first,
                                board,
                                r as int,
                                c as int,
                                direction(i2),
                                k2,
                                x,
                                y,
                            ) && (i2 < 0 || (i2 == 0 && k2 <= 0));
                    }
                }
            }
        }
        let mut i: usize = 0;
        while i < 4
            invariant
                field.wf(),
                board == field@,
                h == field.h,
                w == field.w,
                r < h,
                c < w,
                0 <= i <= 4,
                fits(lights, board),
                lights == sol@,
                first == fill@,
                fill_sized(first, board),
                first[r as int]@[c as int] == Cell::Fillable,
                lamps@ == with_light(lights, r as int, c as int),
                fits(lamps@, board),
                fill_sized(state@, board),
                forall|i2: int, k: int|
                    0 <= i2 < i ==> !walk_hits(
                        first,
                        lights,
                        board,
                        r as int,
                        c as int,
                        direction(i2),
                        k,
                    ),
                forall|x: int, y: int|
                    board.inside(x, y) ==> (#[trigger] state@[x]@[y]) == (if touched(
                        first,
                        board,
                        r as int,
                        c as int,
                        x,
                        y,
                        i as int,
                        0,
                    ) {
                        Cell::Unfillable(true)
                    } else {
                        first[x]@[y]
                    }),
            decreases 4 - i,
        {
            let ghost d = direction(i as int);
            let cells = (r, c).while_dir(h, w, ADJ[i]);
            proof {
                lemma_ray_from_inside((r, c), h, w, d);
            }
            let mut k: usize = 0;
            let mut blocked = false;
            while k < cells.len() && !blocked
                invariant
                    field.wf(),
                    board == field@,
                    h == field.h,
                    w == field.w,
                    r < h,
                    c < w,
                    0 <= i < 4,
                    d == direction(i as int),
                    fits(lights, board),
                    lights == sol@,
                    first == fill@,
                    fill_sized(first, board),
                    first[r as int]@[c as int] == Cell::Fillable,
                    lamps@ == with_light(lights, r as int, c as int),
                    fits(lamps@, board),
                    fill_sized(state@, board),
                    cells@ == run((r, c), h, w, d),
                    cells@.len() == reach((r, c), h, w, d),
                    forall|j: int|
                        0 <= j < reach((r, c), h, w, d) ==> {
                            let m = moved(r as int, c as int, d, j + 1);
                            &&& 0 <= m.0 < h
                            &&& 0 <= m.1 < w
                            &&& (#[trigger] run((r, c), h, w, d)[j]) == (m.0 as usize, m.1 as usize)
                        },
                    0 <= k <= cells@.len(),
                    passable(first, board, r as int, c as int, d, k as int),
                    blocked ==> k < cells@.len() && !passable(
                        first,
                        board,
                        r as int,
                        c as int,
                        d,
                        k + 1,
                    ),
                    forall|j: int|
                        #![trigger moved(r as int, c as int, d, j)]
                        1 <= j <= k + (if blocked { 1int } else { 0int }) ==> !light_at(
                            board,
                            lights,
                            moved(r as int, c as int, d, j).0,
                            moved(r as int, c as int, d, j).1,
                        ),
                    forall|i2: int, k2: int|
                        0 <= i2 < i ==> !walk_hits(
                            first,
                            lights,
                            board,
                            r as int,
                            c as int,
                            direction(i2),
                            k2,
                        ),
                    forall|x: int, y: int|
                        board.inside(x, y) ==> (#[trigger] state@[x]@[y]) == (if touched(
                            first,
                            board,
                            r as int,
                            c as int,
                            x,
                            y,
                            i as int,
                            k as int,
                        ) {
                            Cell::Unfillable(true)
                        } else {
                            first[x]@[y]
                        }),
                decreases cells@.len() - k, if blocked { 0int } else { 1int },
            {
                let (nr, nc) = cells[k];
                let ghost m = moved(r as int, c as int, d, k + 1);
                assert(m == (nr as int, nc as int));
                assert(lamps@[nr as int].len() == w);
                assert(state@[nr as int]@.len() == w);
                assert(lights[nr as int].len() == w);
                assert(lamps@[nr as int][nc as int] == lights[nr as int][nc as int]) by {
                    if nr == r {
                        assert(lamps@[nr as int] == lights[r as int].update(c as int, true));
                    }
                }
                if lamps.field[nr][nc] {
                    proof {
                        assert(walk_hits(first, lights, board, r as int, c as int, d, k + 1));
                    }
                    return Err(OVERLAP_AKARI);
                }
                let ghost before = state@;
                proof {
                    if touched(first, board, r as int, c as int, nr as int, nc as int, i as int, k as int) {
                        lemma_touched_open(
                            first,
                            board,
                            r as int,
                            c as int,
                            nr as int,
                            nc as int,
                            i as int,
                            k as int,
                        );
                    }
                }
                match state[nr][nc] {
                    Cell::Nil => {
                        blocked = true;
                        assert(!passable(first, board, r as int, c as int, d, k + 1)) by {
                            assert(moved(r as int, c as int, d, k + 1) == m);
                        }
                    },
                    _ => {
                        state[nr][nc] = Cell::Unfillable(true);
                        proof {
                            assert(first[nr as int]@[nc as int] != Cell::Nil);
                            assert(passable(first, board, r as int, c as int, d, k + 1)) by {
                                assert forall|j: int|
                                    #![trigger moved(r as int, c as int, d, j)]
                                    1 <= j <= k + 1 implies board.inside(
                                    moved(r as int, c as int, d, j).0,
                                    moved(r as int, c as int, d, j).1,
                                ) && first[moved(r as int, c as int, d, j).0]@[moved(
                                    r as int,
                                    c as int,
                                    d,
                                    j,
                                ).1] != Cell::Nil by {
                                    if j <= k {
                                    } else {
                                        assert(moved(r as int, c as int, d, j) == m);
                                    }
                                }
                            }
                            assert(walk_covers(
                                first,
                                board,
                                r as int,
                                c as int,
                                direction(i as int),
                                k + 1,
                                nr as int,
                                nc as int,
                            ));
                            assert forall|x: int, y: int| board.inside(x, y) implies (
                            #[trigger] state@[x]@[y]) == (if touched(
                                first,
                                board,
                                r as int,
                                c as int,
                                x,
                                y,
                                i as int,
                                k + 1,
                            ) {
                                Cell::Unfillable(true)
                            } else {
                                first[x]@[y]
                            }) by {
                                lemma_touched_step(
                                    first,
                                    board,
                                    r as int,
                                    c as int,
                                    x,
                                    y,
                                    i as int,
                                    k as int,
                                );
                                if x == nr && y == nc {
                                } else {
                                    assert(state@[x]@[y] == before[x]@[y]);
                                }
                            }
                        }
                        k = k + 1;
                    },
                }
            }
            proof {
                assert forall|q: int| !walk_hits(first, lights, board, r as int, c as int, d, q) by {
                    if q >= 1 {
                        let mq = moved(r as int, c as int, d, q);
                        if blocked {
                            if q > k + 1 {
                                if passable(first, board, r as int, c as int, d, q - 1) {
                                    lemma_passable_shorter(
                                        first,
                                        board,
                                        r as int,
                                        c as int,
                                        d,
                                        k + 1,
                                        q - 1,
                                    );
                                }
                            }
                        } else {
                            if q > k {
                                assert(!board.inside(mq.0, mq.1));
                            }
                        }
                    }
                }
                if !blocked {
                    let edge = moved(r as int, c as int, d, k + 1);
                    assert(!board.inside(edge.0, edge.1));
                    assert(!passable(first, board, r as int, c as int, d, k + 1));
                }
                assert forall|x: int, y: int| board.inside(x, y) implies (touched(
                    first,
                    board,
                    r as int,
                    c as int,
                    x,
                    y,
                    i as int,
                    k as int,
                ) <==> touched(first, board, r as int, c as int, x, y, i + 1, 0)) by {
                    lemma_touched_next(
                        first,
                        board,
                        r as int,
                        c as int,
                        x,
                        y,
                        i as int,
                        k as int,
                    );
                }
            }
            i = i + 1;
        }
        proof {
            assert(!glare(first, lights, board, r as int, c as int));
        }
        Ok((lamps, state))
    }

    /// Whether `j` is among the picked indices.
    fn is_picked(pick: &Vec<usize>, j: usize) -> (res: bool)
        ensures
            res == pick@.contains(j),
    {
        let mut p: usize = 0;
        while p < pick.len()
            invariant
                0 <= p <= pick@.len(),
                forall|q: int| 0 <= q < p ==> pick@[q] != j,
            decreases pick@.len() - p,
        {
            if pick[p] == j {
                return true;
            }
            p = p + 1;
        }
        false
    }

    /// Settles the numbered wall at `(r, c)` by one choice of neighbours:
    /// a light on each picked neighbour, in the order of the directions,
    /// then no light allowed on the others. `None` where a picked neighbour
    /// lies off the grid or cannot take the light. The result is exactly
    /// what `settle_model` says. A solution in reach whose lights around
    /// the wall are the picked ones stays in reach.
    pub fn settle(
        field: &Field,
        r: usize,
        c: usize,
        pick: &Vec<usize>,
        sol: &Solution,
        fill: &TempFill,
    ) -> (res: Option<(Solution, TempFill)>)
        requires
            field.wf(),
            tame(field@, sol@, fill@),
            r < field.h,
            c < field.w,
            forall|p: int| 0 <= p < pick@.len() ==> (#[trigger] pick@[p]) < 4,
        ensures
            match settle_model(field@, sol@, grid_of(fill@), r as int, c as int, pick@) {
                None => res is None,
                Some((l, g)) => res matches Some((s2, f2)) && s2@ == l && grid_of(f2@) == g,
            },
            res matches Some((s2, f2)) ==> {
                &&& tame(field@, s2@, f2@)
                &&& narrowed(field@, fill@, f2@)
                &&& grown(field@, sol@, s2@)
                &&& closed_around(field@, f2@, r as int, c as int)
                &&& forall|x: int, y: int|
                    field@.inside(x, y) && (#[trigger] s2@[x][y]) && !sol@[x][y] ==> next_to(
                        r as int,
                        c as int,
                        x,
                        y,
                    )
            },
            forall|goal: Seq<Seq<bool>>|
                #[trigger] keeps(field@, sol@, fill@, goal) && pick@ == wanted(
                    field@,
                    goal,
                    r as int,
                    c as int,
                ) ==> (res matches Some((s2, f2)) && keeps(field@, s2@, f2@, goal)),
    {
        let (h, w) = (field.h, field.w);
        let ghost board = field@;
        let mut lamps = sol.duplicate();
        let mut state = copy_grid(fill);
        let ghost g0 = grid_of(fill@);
        proof {
            lemma_same_fill(board, sol@, fill@, state@);
            assert(grid_of(state@) =~= g0);
        }
        let mut p: usize = 0;
        while p < pick.len()
            invariant
                field.wf(),
                board == field@,
                h == field.h,
                w == field.w,
                r < h,
                c < w,
                0 <= p <= pick@.len(),
                forall|q: int| 0 <= q < pick@.len() ==> (#[trigger] pick@[q]) < 4,
                g0 == grid_of(fill@),
                puts_model(board, sol@, g0, r as int, c as int, pick@, p as int) == Some(
                    (lamps@, grid_of(state@)),
                ),
                tame(board, lamps@, state@),
                narrowed(board, fill@, state@),
                grown(board, sol@, lamps@),
                forall|x: int, y: int|
                    board.inside(x, y) && (#[trigger] lamps@[x][y]) && !sol@[x][y] ==> next_to(
                        r as int,
                        c as int,
                        x,
                        y,
                    ),
                forall|q: int|
                    0 <= q < p ==> board.inside(
                        (#[trigger] moved(r as int, c as int, direction(pick@[q] as int), 1)).0,
                        moved(r as int, c as int, direction(pick@[q] as int), 1).1,
                    ) && state@[moved(r as int, c as int, direction(pick@[q] as int), 1).0]@[moved(
                        r as int,
                        c as int,
                        direction(pick@[q] as int),
                        1,
                    ).1] != Cell::Fillable,
                forall|goal: Seq<Seq<bool>>|
                    #[trigger] keeps(board, sol@, fill@, goal) && pick@ == wanted(
                        board,
                        goal,
                        r as int,
                        c as int,
                    ) ==> keeps(board, lamps@, state@, goal),
            decreases pick@.len() - p,
        {
            let ghost i = pick@[p as int] as int;
            let ghost m = moved(r as int, c as int, direction(i), 1);
            let ghost lights = lamps@;
            let ghost before = state@;
            proof {
                assert forall|goal: Seq<Seq<bool>>|
                    #[trigger] keeps(board, sol@, fill@, goal) && pick@ == wanted(
                        board,
                        goal,
                        r as int,
                        c as int,
                    ) implies light_at(board, goal, m.0, m.1) by {
                    lemma_wanted(board, goal, r as int, c as int, 4);
                    assert(wanted(board, goal, r as int, c as int)[p as int] == i as usize);
                    assert(wanted_upto(board, goal, r as int, c as int, 4).contains(i as usize));
                    assert(moved(r as int, c as int, direction(i), 1) == m);
                }
            }
            proof {
                assert(before[m.0]@.len() == w || !board.inside(m.0, m.1));
                if board.inside(m.0, m.1) {
                    assert(grid_of(before)[m.0][m.1] == before[m.0]@[m.1]);
                }
            }
            match (r, c).dir(h, w, ADJ[pick[p]]) {
                None => {
                    proof {
                        assert(!board.inside(m.0, m.1));
                        assert(puts_model(board, sol@, g0, r as int, c as int, pick@, p + 1) is None);
                        lemma_puts_fail(
                            board,
                            sol@,
                            g0,
                            r as int,
                            c as int,
                            pick@,
                            p + 1,
                            pick@.len() as int,
                        );
                    }
                    return None;
                },
                Some((ar, ac)) => {
                    assert(m == (ar as int, ac as int));
                    match Self::put_akari(field, ar, ac, lamps, state) {
                        Ok((s2, f2)) => {
                            proof {
                                assert(lights[ar as int].len() == w);
                                if before[ar as int]@[ac as int] == Cell::Fillable {
                                    lemma_put_model(board, lights, before, f2@, ar as int, ac as int);
                                } else {
                                    assert(grid_of(f2@) =~= grid_of(before));
                                }
                                assert(puts_model(
                                    board,
                                    sol@,
                                    g0,
                                    r as int,
                                    c as int,
                                    pick@,
                                    p + 1,
                                ) == Some((s2@, grid_of(f2@))));
                                if before[ar as int]@[ac as int] == Cell::Fillable {
                                    lemma_put_tame(board, lights, before, f2@, ar as int, ac as int);
                                    lemma_narrowed_chain(board, fill@, before, f2@);
                                    assert(grown(board, sol@, s2@)) by {
                                        assert forall|x: int, y: int|
                                            board.inside(x, y) && #[trigger] sol@[x][y] implies s2@[x][y] by {
                                            assert(lights[x][y]);
                                            assert(lights[x].len() == w);
                                        }
                                    }
                                    assert forall|x: int, y: int|
                                        board.inside(x, y) && (#[trigger] s2@[x][y])
                                            && !sol@[x][y] implies next_to(
                                        r as int,
                                        c as int,
                                        x,
                                        y,
                                    ) by {
                                        assert(lights[x].len() == w);
                                        if x == ar && y == ac {
                                            assert(moved(r as int, c as int, direction(i), 1) == (
                                                x,
                                                y,
                                            ));
                                        } else {
                                            assert(s2@[x][y] == lights[x][y]);
                                        }
                                    }
                                }
                                assert(f2@[ar as int]@[ac as int] != Cell::Fillable) by {
                                    if before[ar as int]@[ac as int] == Cell::Fillable {
                                        assert(crate::solver::cfs::shone(
                                            before,
                                            board,
                                            ar as int,
                                            ac as int,
                                            ar as int,
                                            ac as int,
                                        ));
                                    }
                                }
                                assert forall|q: int| 0 <= q < p + 1 implies board.inside(
                                    (#[trigger] moved(
                                        r as int,
                                        c as int,
                                        direction(pick@[q] as int),
                                        1,
                                    )).0,
                                    moved(r as int, c as int, direction(pick@[q] as int), 1).1,
                                ) && f2@[moved(
                                    r as int,
                                    c as int,
                                    direction(pick@[q] as int),
                                    1,
                                ).0]@[moved(r as int, c as int, direction(pick@[q] as int), 1).1]
                                    != Cell::Fillable by {
                                    let mq = moved(r as int, c as int, direction(pick@[q] as int), 1);
                                    if q < p {
                                        assert(before[mq.0]@[mq.1] != Cell::Fillable);
                                        if before[ar as int]@[ac as int] == Cell::Fillable {
                                            if f2@[mq.0]@[mq.1] == Cell::Fillable {
                                                assert(before[mq.0]@[mq.1] == Cell::Fillable);
                                            }
                                        }
                                    } else {
                                        assert(mq == m);
                                    }
                                }
                                if before[ar as int]@[ac as int] == Cell::Fillable {
                                    assert forall|goal: Seq<Seq<bool>>|
                                        #[trigger] keeps(board, sol@, fill@, goal) && pick@
                                            == wanted(
                                            board,
                                            goal,
                                            r as int,
                                            c as int,
                                        ) implies keeps(board, s2@, f2@, goal) by {
                                        lemma_put_keeps(
                                            board,
                                            lights,
                                            before,
                                            f2@,
                                            ar as int,
                                            ac as int,
                                            goal,
                                        );
                                    }
                                }
                            }
                            lamps = s2;
                            state = f2;
                        },
                        Err(_) => {
                            proof {
                                lemma_glare_sees(board, lights, before, ar as int, ac as int);
                                assert(put_model(
                                    board,
                                    lights,
                                    grid_of(before),
                                    ar as int,
                                    ac as int,
                                ) is None);
                                assert(puts_model(board, sol@, g0, r as int, c as int, pick@, p + 1) is None);
                                lemma_puts_fail(
                                    board,
                                    sol@,
                                    g0,
                                    r as int,
                                    c as int,
                                    pick@,
                                    p + 1,
                                    pick@.len() as int,
                                );
                                assert forall|goal: Seq<Seq<bool>>|
                                    #[trigger] keeps(board, sol@, fill@, goal) && pick@ == wanted(
                                        board,
                                        goal,
                                        r as int,
                                        c as int,
                                    ) implies false by {
                                    lemma_put_works(
                                        board,
                                        lights,
                                        before,
                                        ar as int,
                                        ac as int,
                                        goal,
                                    );
                                }
                            }
                            return None;
                        },
                    }
                },
            }
            p = p + 1;
        }
        let ghost g1 = grid_of(state@);
        let mut j: usize = 0;
        while j < 4
            invariant
                field.wf(),
                board == field@,
                h == field.h,
                w == field.w,
                r < h,
                c < w,
                0 <= j <= 4,
                g0 == grid_of(fill@),
                puts_model(board, sol@, g0, r as int, c as int, pick@, pick@.len() as int) == Some(
                    (lamps@, g1),
                ),
                grid_of(state@) == closed_model(board, g1, r as int, c as int, pick@, j as int),
                tame(board, lamps@, state@),
                narrowed(board, fill@, state@),
                grown(board, sol@, lamps@),
                forall|x: int, y: int|
                    board.inside(x, y) && (#[trigger] lamps@[x][y]) && !sol@[x][y] ==> next_to(
                        r as int,
                        c as int,
                        x,
                        y,
                    ),
                forall|q: int|
                    0 <= q < pick@.len() ==> board.inside(
                        (#[trigger] moved(r as int, c as int, direction(pick@[q] as int), 1)).0,
                        moved(r as int, c as int, direction(pick@[q] as int), 1).1,
                    ) && state@[moved(r as int, c as int, direction(pick@[q] as int), 1).0]@[moved(
                        r as int,
                        c as int,
                        direction(pick@[q] as int),
                        1,
                    ).1] != Cell::Fillable,
                forall|i: int|
                    #![trigger moved(r as int, c as int, direction(i), 1)]
                    0 <= i < j && board.inside(
                        moved(r as int, c as int, direction(i), 1).0,
                        moved(r as int, c as int, direction(i), 1).1,
                    ) ==> state@[moved(r as int, c as int, direction(i), 1).0]@[moved(
                        r as int,
                        c as int,
                        direction(i),
                        1,
                    ).1] != Cell::Fillable,
                forall|goal: Seq<Seq<bool>>|
                    #[trigger] keeps(board, sol@, fill@, goal) && pick@ == wanted(
                        board,
                        goal,
                        r as int,
                        c as int,
                    ) ==> keeps(board, lamps@, state@, goal),
            decreases 4 - j,
        {
            let ghost entry = state@;
            let ghost mj = moved(r as int, c as int, direction(j as int), 1);
            proof {
                if board.inside(mj.0, mj.1) {
                    assert(entry[mj.0]@.len() == w);
                    assert(grid_of(entry)[mj.0][mj.1] == entry[mj.0]@[mj.1]);
                }
            }
            if !Self::is_picked(pick, j) {
                if let Some((ar, ac)) = (r, c).dir(h, w, ADJ[j]) {
                    assert(state@[ar as int]@.len() == w);
                    let ghost before = state@;
                    let ghost m = moved(r as int, c as int, direction(j as int), 1);
                    assert(m == (ar as int, ac as int));
                    let mut cell = state[ar][ac];
                    cell.disable();
                    state[ar][ac] = cell;
                    proof {
                        assert(with_disabled(before, state@, board, ar as int, ac as int)) by {
                            assert forall|x: int, y: int| board.inside(x, y) implies (
                            #[trigger] state@[x]@[y]) == (if x == ar && y == ac && before[x]@[y]
                                == Cell::Fillable {
                                Cell::Unfillable(false)
                            } else {
                                before[x]@[y]
                            }) by {
                                if x != ar {
                                    assert(state@[x] == before[x]);
                                }
                            }
                        }
                        lemma_disable(board, lamps@, before, state@, ar as int, ac as int);
                        lemma_narrowed_chain(board, fill@, before, state@);
                        assert forall|goal: Seq<Seq<bool>>|
                            #[trigger] keeps(board, sol@, fill@, goal) && pick@ == wanted(
                                board,
                                goal,
                                r as int,
                                c as int,
                            ) implies keeps(board, lamps@, state@, goal) by {
                            lemma_wanted(board, goal, r as int, c as int, 4);
                            assert(keeps(board, lamps@, before, goal));
                            assert(!wanted_upto(board, goal, r as int, c as int, 4).contains(j));
                            assert(moved(r as int, c as int, direction(j as int), 1) == m);
                            assert(!light_at(board, goal, ar as int, ac as int));
                        }
                    }
                }
            }
            proof {
                // the grid is what closing this neighbour makes of it
                let before_grid = grid_of(entry);
                let want = closed_model(board, g1, r as int, c as int, pick@, j + 1);
                let got = grid_of(state@);
                assert(got.len() == want.len());
                assert forall|x: int| 0 <= x < got.len() implies #[trigger] got[x] == want[x] by {
                    assert(entry[x]@.len() == w);
                    assert(state@[x]@.len() == w);
                    assert forall|y: int| 0 <= y < w implies got[x][y] == want[x][y] by {
                        assert(board.inside(x, y));
                    }
                    assert(got[x] =~= want[x]);
                }
                assert(got =~= want);
            }
            proof {
                // what was closed is closed, and so is the neighbour just handled
                let now = state@;
                assert(narrowed(board, entry, now)) by {
                    assert forall|x: int, y: int|
                        board.inside(x, y) && (#[trigger] now[x]@[y]) == Cell::Fillable implies entry[x]@[y]
                        == Cell::Fillable by {}
                }
                assert forall|q: int| 0 <= q < pick@.len() implies board.inside(
                    (#[trigger] moved(r as int, c as int, direction(pick@[q] as int), 1)).0,
                    moved(r as int, c as int, direction(pick@[q] as int), 1).1,
                ) && now[moved(r as int, c as int, direction(pick@[q] as int), 1).0]@[moved(
                    r as int,
                    c as int,
                    direction(pick@[q] as int),
                    1,
                ).1] != Cell::Fillable by {
                    let mq = moved(r as int, c as int, direction(pick@[q] as int), 1);
                    if now[mq.0]@[mq.1] == Cell::Fillable {
                        assert(entry[mq.0]@[mq.1] == Cell::Fillable);
                    }
                }
                assert forall|i: int|
                    #![trigger moved(r as int, c as int, direction(i), 1)]
                    0 <= i < j + 1 && board.inside(
                        moved(r as int, c as int, direction(i), 1).0,
                        moved(r as int, c as int, direction(i), 1).1,
                    ) implies now[moved(r as int, c as int, direction(i), 1).0]@[moved(
                    r as int,
                    c as int,
                    direction(i),
                    1,
                ).1] != Cell::Fillable by {
                    let mi = moved(r as int, c as int, direction(i), 1);
                    if i < j {
                        if now[mi.0]@[mi.1] == Cell::Fillable {
                            assert(entry[mi.0]@[mi.1] == Cell::Fillable);
                        }
                    } else {
                        if pick@.contains(j) {
                            let q = choose|q: int| 0 <= q < pick@.len() && pick@[q] == j;
                            assert(moved(r as int, c as int, direction(pick@[q] as int), 1) == mi);
                        }
                    }
                }
            }
            j = j + 1;
        }
        Some((lamps, state))
    }

    /// The search proper. While numbered walls are left (from `cons_pos`
    /// on) it settles the next one in every possible way; after that it
    /// walks the cells from `cell_pos` on, trying a light and then none on
    /// each. A branch is dropped when time is up or when a dark cell can no
    /// longer be lit; a full placement is kept if the verifier accepts it.
    /// Where no reading of the watch comes up to the limit, a solution in
    /// reach is found, and what is found is what `search` says.
    pub fn rec(
        field: &Field,
        constraints: &Vec<(usize, usize)>,
        cons_pos: usize,
        cell_pos: usize,
        sol: Solution,
        fill: TempFill,
        watch: &mut Watch,
        timeout: Option<u64>,
        found: &mut Option<Solution>,
    )
        requires
            solvable_input(field),
            cell_pos <= field.h * field.w,
            forall|i: int|
                0 <= i < constraints@.len() ==> {
                    &&& (#[trigger] constraints@[i]).0 < field.h
                    &&& constraints@[i].1 < field.w
                    &&& field@.cells[constraints@[i].0 as int][constraints@[i].1 as int].target() is Some
                },
            tame(field@, sol@, fill@),
            decided(field@, fill@, cell_pos as int),
            *old(found) matches Some(s) ==> solves(field@, s@),
        ensures
            *final(found) matches Some(s) ==> solves(field@, s@),
            *old(found) is Some ==> *final(found) == *old(found),
            timeout == Some(0u64) ==> *final(found) == *old(found),
            final(watch).script() == old(watch).script(),
            old(watch).patient(timeout) && (exists|goal: Seq<Seq<bool>>|
                keeps(field@, sol@, fill@, goal)) ==> *final(found) is Some,
            old(watch).patient(timeout) && *old(found) is None ==> seen(*final(found)) == search(
                field@,
                constraints@,
                cons_pos as int,
                cell_pos as int,
                sol@,
                grid_of(fill@),
            ),
        decreases
                (if cons_pos < constraints@.len() {
                    constraints@.len() - cons_pos
                } else {
                    0
                }) + (field.h * field.w - cell_pos),
    {
        let (h, w) = (field.h, field.w);
        let ghost board = field@;
        let ghost lights = sol@;
        let ghost marks = fill@;
        let ghost hope = old(watch).patient(timeout) && exists|goal: Seq<Seq<bool>>|
            keeps(board, lights, marks, goal);
        let ghost goal = choose|goal: Seq<Seq<bool>>| keeps(board, lights, marks, goal);
        let ghost patient = old(watch).patient(timeout);
        let ghost walls = constraints@;
        let ghost grid = grid_of(marks);

        if found.is_some() {
            return ;
        }
        let waited = watch.read();
        if Self::timed_out(waited, timeout) {
            proof {
                if patient {
                    let rs = old(watch).script()->Some_0;
                    assert(waited == reading_at(rs, old(watch).taken()));
                    assert(false);
                }
            }
            return ;
        }
        if cell_pos == h * w {
            proof {
                if hope {
                    lemma_kept_at_end(board, lights, marks, goal);
                }
            }
            if Self::_check(field, &sol).is_ok() {
                *found = Some(sol);
            }
            return ;
        }
        proof {
            lemma_hopeless(board, marks);
        }
        if Self::has_unfeasible_cell(field, &fill) {
            proof {
                if hope {
                    let (x, y) = choose|x: int, y: int| board.inside(x, y) && stuck(marks, board, x, y);
                    lemma_not_stuck(board, lights, marks, goal, x, y);
                }
            }
            return ;
        }
        let total = constraints.len();
        if cons_pos < total {
            let (r, c) = constraints[cons_pos];
            assert(field@.cells[r as int].len() == w);
            let k = match field.field[r][c].is_adj() {
                Some(k) => k,
                None => {
                    return ;
                },
            };
            let picks = index_choices(k);
            proof {
                if hope {
                    // the lights of the solution around the wall are one of the choices
                    assert(keeps(board, lights, marks, goal));
                    lemma_wanted(board, goal, r as int, c as int, 4);
                    assert(board.inside(r as int, c as int));
                    assert(!miscounted(board, goal, r as int, c as int));
                    lemma_lights_upto_all(board, goal, r as int, c as int);
                    assert(is_choice(wanted(board, goal, r as int, c as int), 4, k as nat));
                }
            }
            let mut p: usize = 0;
            while p < picks.len()
                invariant
                    solvable_input(field),
                    board == field@,
                    lights == sol@,
                    marks == fill@,
                    h == field.h,
                    w == field.w,
                    cell_pos < h * w,
                    r < h,
                    c < w,
                    total == constraints@.len(),
                    cons_pos < total,
                    forall|i: int|
                        0 <= i < constraints@.len() ==> {
                            &&& (#[trigger] constraints@[i]).0 < field.h
                            &&& constraints@[i].1 < field.w
                            &&& field@.cells[constraints@[i].0 as int][constraints@[i].1 as int].target() is Some
                        },
                    tame(board, lights, marks),
                    decided(board, marks, cell_pos as int),
                    0 <= p <= picks@.len(),
                    forall|i: int, q: int|
                        0 <= i < picks@.len() && 0 <= q < picks@[i]@.len() ==> (
                        #[trigger] picks@[i]@[q]) < 4,
                    *old(found) is None,
                    timeout != Some(0u64),
                    patient == old(watch).patient(timeout),
                    walls == constraints@,
                    grid == grid_of(marks),
                    constraints@[cons_pos as int] == (r, c),
                    board.cells[r as int][c as int].target() == Some(k as nat),
                    picks_of(picks@) == choices(k as nat),
                    patient ==> seen(*found) == search_upto(
                        board,
                        walls,
                        cons_pos as int,
                        cell_pos as int,
                        lights,
                        grid,
                        p as int,
                    ),
                    *found matches Some(s) ==> solves(field@, s@),
                    watch.script() == old(watch).script(),
                    hope ==> old(watch).patient(timeout) && keeps(board, lights, marks, goal),
                    hope && (exists|q: int|
                        0 <= q < p && (#[trigger] picks@[q])@ == wanted(
                            board,
                            goal,
                            r as int,
                            c as int,
                        )) ==> *found is Some,
                decreases picks@.len() - p,
            {
                let ghost was = *found;
                proof {
                    assert(picks_of(picks@)[p as int] == picks@[p as int]@);
                }
                if let Some((s2, f2)) = Self::settle(field, r, c, &picks[p], &sol, &fill) {
                    proof {
                        assert(decided(board, f2@, cell_pos as int)) by {
                            assert forall|x: int, y: int|
                                board.inside(x, y) && ahead(
                                    board,
                                    x,
                                    y,
                                    cell_pos as int,
                                ) implies (#[trigger] f2@[x]@[y]) != Cell::Fillable by {
                                if f2@[x]@[y] == Cell::Fillable {
                                    assert(marks[x]@[y] == Cell::Fillable);
                                }
                            }
                        }
                    }
                    Self::rec(
                        field,
                        constraints,
                        cons_pos + 1,
                        cell_pos,
                        s2,
                        f2,
                        watch,
                        timeout,
                        found,
                    );
                }
                proof {
                    if hope && picks@[p as int]@ == wanted(board, goal, r as int, c as int) {
                        assert(keeps(board, lights, marks, goal));
                        assert(*found is Some);
                    }
                    assert(hope && (exists|q: int|
                        0 <= q < p + 1 && (#[trigger] picks@[q])@ == wanted(
                            board,
                            goal,
                            r as int,
                            c as int,
                        )) ==> *found is Some) by {
                        if hope && (exists|q: int|
                            0 <= q < p + 1 && (#[trigger] picks@[q])@ == wanted(
                                board,
                                goal,
                                r as int,
                                c as int,
                            )) {
                            let q = choose|q: int|
                                0 <= q < p + 1 && (#[trigger] picks@[q])@ == wanted(
                                    board,
                                    goal,
                                    r as int,
                                    c as int,
                                );
                            if q < p {
                                assert(was is Some);
                            }
                        }
                    }
                }
                p = p + 1;
            }
            proof {
                if hope {
                    let q = choose|q: int|
                        0 <= q < picks@.len() && (#[trigger] picks@[q])@ == wanted(
                            board,
                            goal,
                            r as int,
                            c as int,
                        );
                    assert(0 <= q < p);
                }
            }
            return ;
        }
        proof {
            lemma_cell_of_index(cell_pos as int, h as int, w as int);
        }
        let (r, c) = (cell_pos / w, cell_pos % w);
        assert(fill@[r as int]@.len() == w);
        proof {
            assert(grid[r as int][c as int] == marks[r as int]@[c as int]);
        }
        if fill[r][c].can_put_akari() {
            let lamps = sol.duplicate();
            let state = copy_grid(&fill);
            proof {
                lemma_same_fill(board, lights, marks, state@);
                assert(grid_of(state@) =~= grid);
            }
            let ghost copied = state@;
            proof {
                lemma_glare_sees(board, lights, copied, r as int, c as int);
            }
            if let Ok((s2, f2)) = Self::put_akari(field, r, c, lamps, state) {
                proof {
                    lemma_put_model(board, lights, copied, f2@, r as int, c as int);
                    lemma_put_tame(board, lights, copied, f2@, r as int, c as int);
                    assert(decided(board, f2@, cell_pos + 1)) by {
                        assert forall|x: int, y: int|
                            board.inside(x, y) && ahead(board, x, y, cell_pos + 1) implies (
                        #[trigger] f2@[x]@[y]) != Cell::Fillable by {
                            if x * w + y == cell_pos {
                                lemma_same_cell(w as int, x, y, r as int, c as int);
                            } else {
                                assert(ahead(board, x, y, cell_pos as int));
                                if f2@[x]@[y] == Cell::Fillable {
                                    assert(copied[x]@[y] == Cell::Fillable);
                                    assert(marks[x]@[y] == Cell::Fillable);
                                }
                            }
                        }
                    }
                    if hope && goal[r as int][c as int] {
                        assert(keeps(board, lights, copied, goal));
                        lemma_put_keeps(board, lights, copied, f2@, r as int, c as int, goal);
                    }
                }
                Self::rec(
                    field,
                    constraints,
                    cons_pos,
                    cell_pos + 1,
                    s2,
                    f2,
                    watch,
                    timeout,
                    found,
                );
            } else {
                proof {
                    if hope && goal[r as int][c as int] {
                        assert(keeps(board, lights, copied, goal));
                        lemma_put_works(board, lights, copied, r as int, c as int, goal);
                        assert(false);
                    }
                }
            }
        }
        let ghost between = *found;
        let mut state = fill;
        let mut cell = state[r][c];
        cell.disable();
        state[r][c] = cell;
        proof {
            assert(grid_of(state@) =~= shut(grid, r as int, c as int)) by {
                let a = grid_of(state@);
                let b = shut(grid, r as int, c as int);
                assert forall|x: int| 0 <= x < a.len() implies #[trigger] a[x] =~= b[x] by {
                    if x != r {
                        assert(state@[x] == marks[x]);
                    }
                }
            }
            assert(with_disabled(marks, state@, board, r as int, c as int)) by {
                assert forall|x: int, y: int| board.inside(x, y) implies (#[trigger] state@[x]@[y])
                    == (if x == r && y == c && marks[x]@[y] == Cell::Fillable {
                    Cell::Unfillable(false)
                } else {
                    marks[x]@[y]
                }) by {
                    if x != r {
                        assert(state@[x] == marks[x]);
                    }
                }
            }
            lemma_disable(board, lights, marks, state@, r as int, c as int);
            assert(decided(board, state@, cell_pos + 1)) by {
                assert forall|x: int, y: int|
                    board.inside(x, y) && ahead(board, x, y, cell_pos + 1) implies (
                #[trigger] state@[x]@[y]) != Cell::Fillable by {
                    if x * w + y == cell_pos {
                        lemma_same_cell(w as int, x, y, r as int, c as int);
                    } else {
                        assert(ahead(board, x, y, cell_pos as int));
                        if state@[x]@[y] == Cell::Fillable {
                            assert(marks[x]@[y] == Cell::Fillable);
                        }
                    }
                }
            }
            if hope {
                assert(keeps(board, lights, marks, goal));
                if goal[r as int][c as int] {
                    if marks[r as int]@[c as int] == Cell::Fillable {
                        assert(between is Some);
                    } else {
                        // the light stands already: nothing was closed
                        assert forall|x: int, y: int| board.inside(x, y) implies (
                        #[trigger] state@[x]@[y]) == marks[x]@[y] by {}
                        lemma_same_cells(board, lights, marks, state@, goal);
                    }
                } else {
                    assert(!light_at(board, goal, r as int, c as int));
                }
            }
        }
        Self::rec(field, constraints, cons_pos, cell_pos + 1, sol, state, watch, timeout, found);
    }
}

/// The numbered walls of the field in row-major order.
pub fn numbered_cells(field: &Field) -> (res: Vec<(usize, usize)>)
    requires
        field.wf(),
    ensures
        forall|i: int|
            0 <= i < res@.len() ==> {
                &&& (#[trigger] res@[i]).0 < field.h
                &&& res@[i].1 < field.w
                &&& field@.cells[res@[i].0 as int][res@[i].1 as int].target() is Some
            },
        forall|r: int, c: int|
            field@.inside(r, c) && field@.cells[r][c].target() is Some ==> res@.contains(
                (r as usize, c as usize),
            ),
        forall|i: int, j: int|
            0 <= i < j < res@.len() ==> res@[i].0 < res@[j].0 || (res@[i].0 == res@[j].0
                && res@[i].1 < res@[j].1),
        res@ == walls_of(field@),
{
    let mut res: Vec<(usize, usize)> = Vec::new();
    let mut r: usize = 0;
    while r < field.h
        invariant
            field.wf(),
            0 <= r <= field.h,
            res@ == walls_upto(field@, r as int),
            forall|i: int|
                0 <= i < res@.len() ==> {
                    &&& (#[trigger] res@[i]).0 < r
                    &&& res@[i].1 < field.w
                    &&& field@.cells[res@[i].0 as int][res@[i].1 as int].target() is Some
                },
            forall|x: int, y: int|
                0 <= x < r && 0 <= y < field.w && field@.cells[x][y].target() is Some
                    ==> res@.contains((x as usize, y as usize)),
            forall|i: int, j: int|
                0 <= i < j < res@.len() ==> res@[i].0 < res@[j].0 || (res@[i].0 == res@[j].0
                    && res@[i].1 < res@[j].1),
        decreases field.h - r,
    {
        let mut c: usize = 0;
        assert(res@ =~= walls_upto(field@, r as int) + row_walls(field@, r as int, 0));
        while c < field.w
            invariant
                field.wf(),
                0 <= r < field.h,
                0 <= c <= field.w,
                res@ == walls_upto(field@, r as int) + row_walls(field@, r as int, c as int),
                forall|i: int|
                    0 <= i < res@.len() ==> {
                        &&& (#[trigger] res@[i]).0 <= r
                        &&& res@[i].0 == r ==> res@[i].1 < c
                        &&& res@[i].1 < field.w
                        &&& field@.cells[res@[i].0 as int][res@[i].1 as int].target() is Some
                    },
                forall|x: int, y: int|
                    0 <= x < r && 0 <= y < field.w && field@.cells[x][y].target() is Some
                        ==> res@.contains((x as usize, y as usize)),
                forall|y: int|
                    0 <= y < c && field@.cells[r as int][y].target() is Some ==> res@.contains(
                        (r, y as usize),
                    ),
                forall|i: int, j: int|
                    0 <= i < j < res@.len() ==> res@[i].0 < res@[j].0 || (res@[i].0 == res@[j].0
                        && res@[i].1 < res@[j].1),
            decreases field.w - c,
        {
            assert(field@.cells[r as int].len() == field.w);
            let ghost before = res@;
            if field.field[r][c].is_adj().is_some() {
                res.push((r, c));
                proof {
                    assert(res@ =~= walls_upto(field@, r as int) + row_walls(
                        field@,
                        r as int,
                        c + 1,
                    ));
                    assert(res@[before.len() as int] == (r, c));
                    assert forall|x: int, y: int|
                        0 <= x < r && 0 <= y < field.w && field@.cells[x][y].target() is Some implies res@.contains(
                        (x as usize, y as usize),
                    ) by {
                        let i = choose|i: int|
                            0 <= i < before.len() && before[i] == (x as usize, y as usize);
                        assert(res@[i] == (x as usize, y as usize));
                    }
                    assert forall|y: int|
                        0 <= y < c + 1 && field@.cells[r as int][y].target() is Some implies res@.contains(
                        (r, y as usize),
                    ) by {
                        if y < c {
                            let i = choose|i: int|
                                0 <= i < before.len() && before[i] == (r, y as usize);
                            assert(res@[i] == (r, y as usize));
                        }
                    }
                }
            }
            c = c + 1;
        }
        r = r + 1;
    }
    res
}

/// The tentative state before any decision: every empty cell may get a light.
pub fn open_fill(field: &Field) -> (fill: TempFill)
    requires
        field.wf(),
    ensures
        fill_sized(fill@, field@),
        forall|x: int, y: int|
            field@.inside(x, y) ==> (#[trigger] fill@[x]@[y]) == (if field@.cells[x][y]
                == State::Empty {
                Cell::Fillable
            } else {
                Cell::Nil
            }),
        grid_of(fill@) == open_grid(field@),
{
    let mut fill: TempFill = Vec::new();
    let mut r: usize = 0;
    while r < field.h
        invariant
            field.wf(),
            0 <= r <= field.h,
            fill@.len() == r,
            forall|x: int| 0 <= x < r ==> (#[trigger] fill@[x])@.len() == field.w,
            forall|x: int, y: int|
                0 <= x < r && 0 <= y < field.w ==> (#[trigger] fill@[x]@[y]) == (if field@.cells[x][y]
                    == State::Empty {
                    Cell::Fillable
                } else {
                    Cell::Nil
                }),
        decreases field.h - r,
    {
        let mut row: Vec<Cell> = Vec::new();
        let mut c: usize = 0;
        assert(field@.cells[r as int].len() == field.w);
        while c < field.w
            invariant
                field.wf(),
                0 <= r < field.h,
                0 <= c <= field.w,
                field.field@[r as int]@.len() == field.w,
                row@.len() == c,
                forall|y: int|
                    0 <= y < c ==> (#[trigger] row@[y]) == (if field@.cells[r as int][y]
                        == State::Empty {
                        Cell::Fillable
                    } else {
                        Cell::Nil
                    }),
            decreases field.w - c,
        {
            if field.field[r][c].is_empty() {
                row.push(Cell::Fillable);
            } else {
                row.push(Cell::Nil);
            }
            c = c + 1;
        }
        fill.push(row);
        r = r + 1;
    }
    proof {
        let a = grid_of(fill@);
        let b = open_grid(field@);
        assert(a.len() == b.len());
        assert forall|x: int| 0 <= x < a.len() implies #[trigger] a[x] =~= b[x] by {
            assert(fill@[x]@.len() == field.w);
            assert forall|y: int| 0 <= y < field.w implies a[x][y] == b[x][y] by {
                assert(field@.inside(x, y));
            }
        }
        assert(a =~= b);
    }
    fill
}

impl Default for CFS {
    fn default() -> (res: Self)
        ensures
            res.limit() is None,
    {
        Self::new(None)
    }
}

impl CFS {
    /// Searches with the seconds read from `watch`. With a limit of zero
    /// seconds nothing is ever found. Where no reading comes up to the
    /// limit, the limit changes nothing: what is found is what `found_on`
    /// says, a solution exactly when the puzzle has one. Whatever is found
    /// is a solution.
    pub fn solve_by(&self, field: &Field, watch: Watch) -> (res: Option<Solution>)
        requires
            solvable_input(field),
        ensures
            res matches Some(s) ==> solves(field@, s@),
            self.limit() == Some(0u64) ==> res is None,
            watch.patient(self.limit()) ==> answers(field@, res),
            watch.patient(self.limit()) ==> seen(res) == found_on(field@),
    {
        let mut watch = watch;
        let ghost given = watch;
        let sol = Solution { field: filled_grid(field.h, field.w, false) };
        let constraints = numbered_cells(field);
        let fill = open_fill(field);
        let mut found: Option<Solution> = None;
        let ghost blank = sol@;
        let ghost open = fill@;
        proof {
            assert forall|x: int, y: int| field@.inside(x, y) implies !(#[trigger] blank[x][y]) by {
                assert(blank[x].len() == field.w);
            }
            lemma_start_tame(field@, blank, open);
        }
        Self::rec(field, &constraints, 0, 0, sol, fill, &mut watch, self.timeout, &mut found);
        proof {
            assert(blank =~= dark(field@)) by {
                assert forall|x: int| 0 <= x < blank.len() implies #[trigger] blank[x] =~= dark(
                    field@,
                )[x] by {}
            }
            if given.patient(self.limit()) && solvable(field@) {
                let goal = choose|goal: Seq<Seq<bool>>| solves(field@, goal);
                assert(keeps(field@, blank, open, goal));
            }
        }
        found
    }
}

impl Solver for CFS {
    /// Searches by the machine's clock. With a limit of zero seconds
    /// nothing is ever found; without a limit what is found is what
    /// `found_on` says, a solution exactly when the puzzle has one.
    fn solve(&self, field: &Field) -> (res: Option<Solution>)
        ensures
            self.limit() == Some(0u64) ==> res is None,
            self.limit() is None ==> answers(field@, res),
            self.limit() is None ==> seen(res) == found_on(field@),
    {
        self.solve_by(field, Watch::started())
    }
}

/// A walk that passes `b` cells passes any smaller number of cells.
proof fn lemma_passable_shorter(
    fill: Seq<Vec<Cell>>,
    board: Board,
    r: int,
    c: int,
    d: (usize, usize),
    a: int,
    b: int,
)
    requires
        a <= b,
        passable(fill, board, r, c, d, b),
    ensures
        passable(fill, board, r, c, d, a),
{
}

/// Whatever a light shines on is no wall.
proof fn lemma_touched_open(
    fill: Seq<Vec<Cell>>,
    board: Board,
    r: int,
    c: int,
    x: int,
    y: int,
    i: int,
    k: int,
)
    requires
        fill[r]@[c] == Cell::Fillable,
        touched(fill, board, r, c, x, y, i, k),
    ensures
        fill[x]@[y] != Cell::Nil,
{
    if x == r && y == c {
    } else {
        let (i2, k2) = choose|i2: int, k2: int|
            0 <= i2 < 4 && #[trigger] walk_covers(fill, board, r, c, direction(i2), k2, x, y) && (i2
                < i || (i2 == i && k2 <= k));
        assert(moved(r, c, direction(i2), k2) == (x, y));
    }
}

/// One more step of the walk adds just the cell stepped on.
proof fn lemma_touched_step(
    fill: Seq<Vec<Cell>>,
    board: Board,
    r: int,
    c: int,
    x: int,
    y: int,
    i: int,
    k: int,
)
    requires
        0 <= i < 4,
        k >= 0,
        passable(fill, board, r, c, direction(i), k + 1),
    ensures
        touched(fill, board, r, c, x, y, i, k + 1) <==> (touched(fill, board, r, c, x, y, i, k)
            || moved(r, c, direction(i), k + 1) == (x, y)),
{
    if touched(fill, board, r, c, x, y, i, k + 1) && !(x == r && y == c) {
        let (i2, k2) = choose|i2: int, k2: int|
            0 <= i2 < 4 && #[trigger] walk_covers(fill, board, r, c, direction(i2), k2, x, y) && (i2
                < i || (i2 == i && k2 <= k + 1));
        if i2 == i && k2 == k + 1 {
        } else {
            assert(walk_covers(fill, board, r, c, direction(i2), k2, x, y));
        }
    }
    if touched(fill, board, r, c, x, y, i, k) && !(x == r && y == c) {
        let (i2, k2) = choose|i2: int, k2: int|
            0 <= i2 < 4 && #[trigger] walk_covers(fill, board, r, c, direction(i2), k2, x, y) && (i2
                < i || (i2 == i && k2 <= k));
        assert(walk_covers(fill, board, r, c, direction(i2), k2, x, y));
    }
    if moved(r, c, direction(i), k + 1) == (x, y) {
        assert(walk_covers(fill, board, r, c, direction(i), k + 1, x, y));
    }
}

/// Where the walk in one direction cannot go on, the next direction starts
/// from what has been covered.
proof fn lemma_touched_next(
    fill: Seq<Vec<Cell>>,
    board: Board,
    r: int,
    c: int,
    x: int,
    y: int,
    i: int,
    k: int,
)
    requires
        0 <= i < 4,
        k >= 0,
        !passable(fill, board, r, c, direction(i), k + 1),
    ensures
        touched(fill, board, r, c, x, y, i, k) <==> touched(fill, board, r, c, x, y, i + 1, 0),
{
    if touched(fill, board, r, c, x, y, i + 1, 0) && !(x == r && y == c) {
        let (i2, k2) = choose|i2: int, k2: int|
            0 <= i2 < 4 && #[trigger] walk_covers(fill, board, r, c, direction(i2), k2, x, y) && (i2
                < i + 1 || (i2 == i + 1 && k2 <= 0));
        if i2 == i {
            if k2 > k {
                lemma_passable_shorter(fill, board, r, c, direction(i), k + 1, k2);
            }
        }
        assert(walk_covers(fill, board, r, c, direction(i2), k2, x, y));
    }
    if touched(fill, board, r, c, x, y, i, k) && !(x == r && y == c) {
        let (i2, k2) = choose|i2: int, k2: int|
            0 <= i2 < 4 && #[trigger] walk_covers(fill, board, r, c, direction(i2), k2, x, y) && (i2
                < i || (i2 == i && k2 <= k));
        assert(walk_covers(fill, board, r, c, direction(i2), k2, x, y));
    }
}


} // verus!
