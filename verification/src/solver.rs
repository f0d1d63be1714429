//! Solvers and the solution verifier.

use vstd::prelude::*;
use crate::field::{fits, Board, Field, Solution, State};

pub mod cfs;
pub mod cfs_with_pb;
pub mod fast;
pub mod follow;
pub mod keep;
pub mod naive;
pub mod ways;

pub use cfs::CFS;
pub use cfs_with_pb::CFSwithPB;
pub use fast::Fast;
pub use naive::Naive;

use crate::utility::{direction, lemma_ray_from_inside, moved, reach, run, GridUtility, ADJ};

verus! {

/// Says that a wall holds a light or has the wrong number of lights beside it.
pub const MISMATCH_AKARI: &'static str = "The number of lights does not match.";

/// Says that two lights shine on each other.
pub const OVERLAP_AKARI: &'static str = "The light is already in place.";

/// Says that an empty cell is left dark.
pub const UNLIT_CELL: &'static str = "There are cells that are not lighted.";

/// What the verifier can find wrong with a placement of lights.
pub enum Flaw {
    /// A wall holds a light, or a numbered wall has the wrong number of lights beside it.
    MismatchCount,
    /// Two lights shine on each other.
    OverlapLight,
    /// An empty cell is left dark.
    UnlitCell,
}

/// The message that reports the flaw.
pub open spec fn flaw_message(f: Flaw) -> Seq<char> {
    match f {
        Flaw::MismatchCount => MISMATCH_AKARI@,
        Flaw::OverlapLight => OVERLAP_AKARI@,
        Flaw::UnlitCell => UNLIT_CELL@,
    }
}

/// A light stands at `(r, c)`, a cell of the grid.
pub open spec fn light_at(board: Board, lights: Seq<Seq<bool>>, r: int, c: int) -> bool {
    board.inside(r, c) && lights[r][c]
}

/// One for `true`, zero for `false`.
pub open spec fn one_if(b: bool) -> nat {
    if b {
        1
    } else {
        0
    }
}

/// The number of lights on the four neighbours of `(r, c)`.
pub open spec fn lights_around(board: Board, lights: Seq<Seq<bool>>, r: int, c: int) -> nat {
    one_if(light_at(board, lights, r, c + 1)) + one_if(light_at(board, lights, r - 1, c)) + one_if(
        light_at(board, lights, r, c - 1),
    ) + one_if(light_at(board, lights, r + 1, c))
}

/// The number of lights on the neighbours of `(r, c)` in the first `i` directions.
pub open spec fn lights_upto(board: Board, lights: Seq<Seq<bool>>, r: int, c: int, i: int) -> nat
    decreases i,
{
    if i <= 0 {
        0
    } else {
        lights_upto(board, lights, r, c, i - 1) + one_if(
            light_at(
                board,
                lights,
                moved(r, c, direction(i - 1), 1).0,
                moved(r, c, direction(i - 1), 1).1,
            ),
        )
    }
}

/// Counting direction by direction counts the lights around.
pub proof fn lemma_lights_upto_all(board: Board, lights: Seq<Seq<bool>>, r: int, c: int)
    ensures
        lights_upto(board, lights, r, c, 4) == lights_around(board, lights, r, c),
{
    reveal_with_fuel(lights_upto, 5);
}

/// The cell `(r, c)` breaks a rule about walls: a wall holds a light, or a
/// numbered wall has not exactly its number of lights beside it.
pub open spec fn miscounted(board: Board, lights: Seq<Seq<bool>>, r: int, c: int) -> bool {
    match board.cells[r][c].target() {
        Some(k) => lights[r][c] || lights_around(board, lights, r, c) != k,
        None => board.cells[r][c] == State::Nil && lights[r][c],
    }
}

/// The `k` cells next to `(r, c)` in direction `d` are all empty cells of the grid.
pub open spec fn open_run(board: Board, r: int, c: int, d: (usize, usize), k: int) -> bool {
    forall|j: int|
        #![trigger moved(r, c, d, j)]
        1 <= j <= k ==> board.open_at(moved(r, c, d, j).0, moved(r, c, d, j).1)
}

/// Looking from `(r, c)` in direction `d`, a light stands `k` steps away
/// with nothing but empty cells in between.
pub open spec fn sees(
    board: Board,
    lights: Seq<Seq<bool>>,
    r: int,
    c: int,
    d: (usize, usize),
    k: int,
) -> bool {
    &&& k >= 1
    &&& open_run(board, r, c, d, k - 1)
    &&& light_at(board, lights, moved(r, c, d, k).0, moved(r, c, d, k).1)
}

/// Some light shines along a row or column onto `(r, c)`.
pub open spec fn sees_any(board: Board, lights: Seq<Seq<bool>>, r: int, c: int) -> bool {
    exists|i: int, k: int| 0 <= i < 4 && sees(board, lights, r, c, direction(i), k)
}

/// The cell holds a light or is shone upon.
pub open spec fn lit(board: Board, lights: Seq<Seq<bool>>, r: int, c: int) -> bool {
    lights[r][c] || sees_any(board, lights, r, c)
}

/// The first rule that the placement breaks, walls before overlaps before
/// dark cells, or `None` for a solution.
pub open spec fn verdict(board: Board, lights: Seq<Seq<bool>>) -> Option<Flaw> {
    if exists|r: int, c: int| board.inside(r, c) && miscounted(board, lights, r, c) {
        Some(Flaw::MismatchCount)
    } else if exists|r: int, c: int|
        board.inside(r, c) && lights[r][c] && sees_any(board, lights, r, c) {
        Some(Flaw::OverlapLight)
    } else if exists|r: int, c: int| board.open_at(r, c) && !lit(board, lights, r, c) {
        Some(Flaw::UnlitCell)
    } else {
        None
    }
}

/// The placement solves the puzzle.
pub open spec fn solves(board: Board, lights: Seq<Seq<bool>>) -> bool {
    fits(lights, board) && verdict(board, lights) is None
}

/// What a search has settled about one cell so far.
#[derive(Debug, Clone, Copy, PartialEq, Eq, Structural)]
pub enum Cell {
    /// An empty cell that may still get a light.
    Fillable,
    /// An empty cell that may not get a light; the flag says whether it is lit.
    Unfillable(bool),
    /// Not an empty cell.
    Nil,
}

impl Cell {
    /// Forbids a light on a cell that could still get one.
    pub fn disable(&mut self)
        ensures
            *final(self) == (if *old(self) == Cell::Fillable {
                Cell::Unfillable(false)
            } else {
                *old(self)
            }),
    {
        if let Self::Fillable = self {
            *self = Self::Unfillable(false)
        }
    }

    /// Whether a light may still be put on the cell.
    pub fn can_put_akari(&self) -> (b: bool)
        ensures
            b == (*self == Cell::Fillable),
    {
        matches!(self, Self::Fillable)
    }
}

/// The tentative state of every cell during a search.
pub type TempFill = Vec<Vec<Cell>>;

/// The tentative state has the size of the board.
pub open spec fn fill_sized(fill: Seq<Vec<Cell>>, board: Board) -> bool {
    &&& fill.len() == board.h
    &&& forall|x: int| 0 <= x < board.h ==> (#[trigger] fill[x])@.len() == board.w
}

/// The placement with one more light at `(r, c)`.
pub open spec fn with_light(lights: Seq<Seq<bool>>, r: int, c: int) -> Seq<Seq<bool>> {
    lights.update(r, lights[r].update(c, true))
}

/// Some placement of lights solves the puzzle.
pub open spec fn solvable(board: Board) -> bool {
    exists|s: Seq<Seq<bool>>| solves(board, s)
}

/// `res` answers the puzzle: a solution where there is one, nothing where there is none.
pub open spec fn answers(board: Board, res: Option<Solution>) -> bool {
    &&& res is Some <==> solvable(board)
    &&& res matches Some(s) ==> solves(board, s@)
}

/// Solvers agree: two answers to one puzzle are both a solution or both
/// nothing, and the verifier accepts whatever solution is given.
pub proof fn lemma_answers_agree(board: Board, a: Option<Solution>, b: Option<Solution>)
    requires
        answers(board, a),
        answers(board, b),
    ensures
        a is Some <==> b is Some,
        a matches Some(s) ==> verdict(board, s@) is None,
        b matches Some(s) ==> verdict(board, s@) is None,
{
}

/// `res` is the verifier's judgement of the placement.
pub open spec fn judged(board: Board, lights: Seq<Seq<bool>>, res: Result<(), &'static str>) -> bool {
    match res {
        Ok(()) => verdict(board, lights) is None,
        Err(e) => verdict(board, lights) matches Some(flaw) && e@ == flaw_message(flaw),
    }
}

/// The verifier is stable: two judgements of one placement on one field
/// are both acceptance, or both the same complaint.
pub proof fn lemma_judgement_stable(
    board: Board,
    lights: Seq<Seq<bool>>,
    first: Result<(), &'static str>,
    second: Result<(), &'static str>,
)
    requires
        judged(board, lights, first),
        judged(board, lights, second),
    ensures
        first is Ok <==> second is Ok,
        first matches Err(a) ==> second matches Err(b) && a@ == b@,
{
}

/// The index of the direction opposite to the `i`-th.
pub open spec fn opposite(i: int) -> int {
    if i < 2 {
        i + 2
    } else {
        i - 2
    }
}

/// The marks have the shape of the board and mark exactly the empty cells.
pub open spec fn marks_shaped(marks: Seq<Vec<Option<bool>>>, board: Board) -> bool {
    &&& marks.len() == board.h
    &&& forall|x: int| 0 <= x < board.h ==> (#[trigger] marks[x])@.len() == board.w
    &&& forall|x: int, y: int|
        board.inside(x, y) ==> ((#[trigger] marks[x]@[y]) is Some <==> board.cells[x][y]
            == State::Empty)
}

/// Whatever is marked bright is lit.
pub open spec fn marks_sound(
    marks: Seq<Vec<Option<bool>>>,
    board: Board,
    lights: Seq<Seq<bool>>,
) -> bool {
    forall|x: int, y: int|
        board.inside(x, y) && (#[trigger] marks[x]@[y]) == Some(true) ==> lit(board, lights, x, y)
}

/// Every bright mark of `a` is a bright mark of `b`.
pub open spec fn marks_kept(a: Seq<Vec<Option<bool>>>, b: Seq<Vec<Option<bool>>>, board: Board) -> bool {
    forall|x: int, y: int|
        board.inside(x, y) && (#[trigger] a[x]@[y]) == Some(true) ==> b[x]@[y] == Some(true)
}

/// Everything that the light at `(x, y)` reaches in direction `d` is marked bright.
pub open spec fn beam_marked(
    marks: Seq<Vec<Option<bool>>>,
    board: Board,
    x: int,
    y: int,
    d: (usize, usize),
) -> bool {
    forall|k: int|
        k >= 1 && #[trigger] open_run(board, x, y, d, k) ==> marks[moved(x, y, d, k).0]@[moved(
            x,
            y,
            d,
            k,
        ).1] == Some(true)
}

/// If a light stands at `(x, y)` it sees no other light, and it and all
/// that it reaches are marked bright.
pub open spec fn swept(
    marks: Seq<Vec<Option<bool>>>,
    board: Board,
    lights: Seq<Seq<bool>>,
    x: int,
    y: int,
) -> bool {
    lights[x][y] ==> {
        &&& marks[x]@[y] == Some(true)
        &&& !sees_any(board, lights, x, y)
        &&& forall|i: int| 0 <= i < 4 ==> #[trigger] beam_marked(marks, board, x, y, direction(i))
    }
}

/// No wall holds a light.
pub open spec fn lights_on_open(board: Board, lights: Seq<Seq<bool>>) -> bool {
    forall|x: int, y: int| board.inside(x, y) && #[trigger] lights[x][y] ==> board.open_at(x, y)
}

/// Beams marked before later marks were added are still marked.
pub proof fn lemma_kept_beams(
    a: Seq<Vec<Option<bool>>>,
    b: Seq<Vec<Option<bool>>>,
    board: Board,
    x: int,
    y: int,
    n: int,
)
    requires
        marks_kept(a, b, board),
        forall|j: int| 0 <= j < n ==> #[trigger] beam_marked(a, board, x, y, direction(j)),
        beam_marked(b, board, x, y, direction(n)),
    ensures
        forall|j: int| 0 <= j < n + 1 ==> #[trigger] beam_marked(b, board, x, y, direction(j)),
{
    assert forall|j: int| 0 <= j < n + 1 implies #[trigger] beam_marked(
        b,
        board,
        x,
        y,
        direction(j),
    ) by {
        if j < n {
            assert(beam_marked(a, board, x, y, direction(j)));
            assert forall|k: int|
                k >= 1 && #[trigger] open_run(board, x, y, direction(j), k) implies b[moved(
                x,
                y,
                direction(j),
                k,
            ).0]@[moved(x, y, direction(j), k).1] == Some(true) by {
                let m = moved(x, y, direction(j), k);
                assert(board.open_at(m.0, m.1));
                assert(a[m.0]@[m.1] == Some(true));
            }
        }
    }
}

/// A swept light stays swept when marks are only added.
proof fn lemma_kept_swept(
    a: Seq<Vec<Option<bool>>>,
    b: Seq<Vec<Option<bool>>>,
    board: Board,
    lights: Seq<Seq<bool>>,
    r: int,
    c: int,
)
    requires
        marks_kept(a, b, board),
        forall|x: int, y: int|
            0 <= x < r && 0 <= y < board.w ==> #[trigger] swept(a, board, lights, x, y),
        forall|y: int| 0 <= y < c ==> #[trigger] swept(a, board, lights, r, y),
        0 <= r < board.h,
        0 <= c < board.w,
        swept(b, board, lights, r, c),
    ensures
        forall|x: int, y: int|
            0 <= x < r && 0 <= y < board.w ==> #[trigger] swept(b, board, lights, x, y),
        forall|y: int| 0 <= y < c + 1 ==> #[trigger] swept(b, board, lights, r, y),
{
    assert forall|x: int, y: int|
        board.inside(x, y) && swept(a, board, lights, x, y) implies #[trigger] swept(
        b,
        board,
        lights,
        x,
        y,
    ) by {
        if lights[x][y] {
            assert(a[x]@[y] == Some(true));
            assert forall|i: int| 0 <= i < 4 implies #[trigger] beam_marked(
                b,
                board,
                x,
                y,
                direction(i),
            ) by {
                assert(beam_marked(a, board, x, y, direction(i)));
                assert forall|k: int|
                    k >= 1 && #[trigger] open_run(board, x, y, direction(i), k) implies b[moved(
                    x,
                    y,
                    direction(i),
                    k,
                ).0]@[moved(x, y, direction(i), k).1] == Some(true) by {
                    let m = moved(x, y, direction(i), k);
                    assert(board.open_at(m.0, m.1));
                    assert(a[m.0]@[m.1] == Some(true));
                }
            }
        }
    }
}

/// Once every light is swept, an empty cell that is not marked bright is not lit.
proof fn lemma_dark_unlit(
    marks: Seq<Vec<Option<bool>>>,
    board: Board,
    lights: Seq<Seq<bool>>,
    r: int,
    c: int,
)
    requires
        board.inside(r, c),
        marks_shaped(marks, board),
        forall|x: int, y: int|
            0 <= x < board.h && 0 <= y < board.w ==> #[trigger] swept(marks, board, lights, x, y),
        marks[r]@[c] == Some(false),
    ensures
        board.open_at(r, c),
        !lit(board, lights, r, c),
{
    assert(marks[r]@[c] is Some);
    assert(board.open_at(r, c));
    if lights[r][c] {
        assert(swept(marks, board, lights, r, c));
    }
    if sees_any(board, lights, r, c) {
        let (i, k) = choose|i: int, k: int|
            0 <= i < 4 && sees(board, lights, r, c, direction(i), k);
        let d = direction(i);
        let back = direction(opposite(i));
        let l = moved(r, c, d, k);
        assert(swept(marks, board, lights, l.0, l.1));
        assert(beam_marked(marks, board, l.0, l.1, direction(opposite(i))));
        assert(open_run(board, l.0, l.1, back, k)) by {
            assert forall|j: int| 1 <= j <= k implies board.open_at(
                (#[trigger] moved(l.0, l.1, back, j)).0,
                moved(l.0, l.1, back, j).1,
            ) by {
                assert(moved(l.0, l.1, back, j) == moved(r, c, d, k - j));
                if j < k {
                    assert(board.open_at(moved(r, c, d, k - j).0, moved(r, c, d, k - j).1));
                }
            }
        }
        assert(moved(l.0, l.1, back, k) == (r, c));
    }
}

/// Counts the lights beside `(r, c)`.
fn lights_near(field: &Field, sol: &Solution, r: usize, c: usize) -> (n: usize)
    requires
        field.wf(),
        fits(sol@, field@),
        r < field.h,
        c < field.w,
    ensures
        n == lights_around(field@, sol@, r as int, c as int),
{
    let (h, w) = (field.h, field.w);
    let mut n: usize = 0;
    if let Some((nr, nc)) = (r, c).right(h, w) {
        assert(sol@[nr as int].len() == w);
        if sol.field[nr][nc] {
            n = n + 1;
        }
    }
    if let Some((nr, nc)) = (r, c).up(h, w) {
        assert(sol@[nr as int].len() == w);
        if sol.field[nr][nc] {
            n = n + 1;
        }
    }
    if let Some((nr, nc)) = (r, c).left(h, w) {
        assert(sol@[nr as int].len() == w);
        if sol.field[nr][nc] {
            n = n + 1;
        }
    }
    if let Some((nr, nc)) = (r, c).down(h, w) {
        assert(sol@[nr as int].len() == w);
        if sol.field[nr][nc] {
            n = n + 1;
        }
    }
    n
}


/// Walks from the light at `(r, c)` in the `i`-th direction up to the first
/// wall, marking what the light reaches; says whether it met another light.
pub fn sweep(
    field: &Field,
    sol: &Solution,
    fill: &mut Vec<Vec<Option<bool>>>,
    r: usize,
    c: usize,
    i: usize,
) -> (hit: bool)
    requires
        field.wf(),
        fits(sol@, field@),
        r < field.h,
        c < field.w,
        i < 4,
        sol@[r as int][c as int],
        marks_shaped(old(fill)@, field@),
        marks_sound(old(fill)@, field@, sol@),
    ensures
        marks_shaped(final(fill)@, field@),
        marks_sound(final(fill)@, field@, sol@),
        marks_kept(old(fill)@, final(fill)@, field@),
        hit <==> exists|k: int| sees(field@, sol@, r as int, c as int, direction(i as int), k),
        !hit ==> beam_marked(final(fill)@, field@, r as int, c as int, direction(i as int)),
{
    let (h, w) = (field.h, field.w);
    let ghost board = field@;
    let ghost d = direction(i as int);
    let ghost back = direction(opposite(i as int));
    let cells = (r, c).while_dir(h, w, ADJ[i]);
    proof {
        lemma_ray_from_inside((r, c), h, w, d);
    }
    let mut k: usize = 0;
    while k < cells.len()
        invariant
            field.wf(),
            fits(sol@, field@),
            board == field@,
            h == field.h,
            w == field.w,
            r < h,
            c < w,
            i < 4,
            d == direction(i as int),
            back == direction(opposite(i as int)),
            sol@[r as int][c as int],
            cells@ == run((r, c), h, w, d),
            cells@.len() == reach((r, c), h, w, d),
            forall|j: int|
                0 <= j < reach((r, c), h, w, d) ==> {
                    let m = moved(r as int, c as int, d, j + 1);
                    &&& 0 <= m.0 < h
                    &&& 0 <= m.1 < w
                    &&& (#[trigger] run((r, c), h, w, d)[j]) == (m.0 as usize, m.1 as usize)
                },
            0 <= k <= cells@.len(),
            open_run(board, r as int, c as int, d, k as int),
            forall|j: int|
                #![trigger moved(r as int, c as int, d, j)]
                1 <= j <= k ==> !sol@[moved(r as int, c as int, d, j).0][moved(
                    r as int,
                    c as int,
                    d,
                    j,
                ).1] && fill@[moved(r as int, c as int, d, j).0]@[moved(r as int, c as int, d, j).1]
                    == Some(true),
            marks_shaped(fill@, board),
            marks_sound(fill@, board, sol@),
            marks_kept(old(fill)@, fill@, board),
        decreases cells@.len() - k,
    {
        let (nr, nc) = cells[k];
        let ghost m = moved(r as int, c as int, d, k + 1);
        assert(m == (nr as int, nc as int));
        assert(sol@[nr as int].len() == w);
        if sol.field[nr][nc] {
            assert(sees(board, sol@, r as int, c as int, d, k + 1));
            return true;
        }
        if fill[nr][nc].is_none() {
            proof {
                assert(!board.open_at(m.0, m.1));
                assert forall|q: int| !sees(board, sol@, r as int, c as int, d, q) by {
                    if q >= 1 {
                        if q <= k + 1 {
                            assert(moved(r as int, c as int, d, q) == moved(
                                r as int,
                                c as int,
                                d,
                                q,
                            ));
                        } else {
                            assert(!open_run(board, r as int, c as int, d, q - 1)) by {
                                assert(moved(r as int, c as int, d, k + 1) == m);
                            }
                        }
                    }
                }
                assert forall|q: int|
                    q >= 1 && #[trigger] open_run(board, r as int, c as int, d, q) implies fill@[moved(
                    r as int,
                    c as int,
                    d,
                    q,
                ).0]@[moved(r as int, c as int, d, q).1] == Some(true) by {
                    if q > k {
                        assert(moved(r as int, c as int, d, k + 1) == m);
                    }
                }
            }
            return false;
        }
        let ghost before = fill@;
        fill[nr][nc] = Some(true);
        proof {
            assert(board.open_at(m.0, m.1));
            assert(sees(board, sol@, nr as int, nc as int, back, k + 1)) by {
                assert forall|j: int| 1 <= j <= k implies board.open_at(
                    (#[trigger] moved(nr as int, nc as int, back, j)).0,
                    moved(nr as int, nc as int, back, j).1,
                ) by {
                    assert(moved(nr as int, nc as int, back, j) == moved(
                        r as int,
                        c as int,
                        d,
                        k + 1 - j,
                    ));
                }
                assert(moved(nr as int, nc as int, back, k + 1) == (r as int, c as int));
            }
            assert(sees_any(board, sol@, nr as int, nc as int)) by {
                assert(0 <= opposite(i as int) < 4);
            }
            assert forall|x: int, y: int|
                board.inside(x, y) && (#[trigger] fill@[x]@[y]) == Some(true) implies lit(
                board,
                sol@,
                x,
                y,
            ) by {
                if x == nr && y == nc {
                } else {
                    assert(before[x]@[y] == Some(true));
                }
            }
            assert forall|x: int, y: int|
                board.inside(x, y) implies ((#[trigger] fill@[x]@[y]) is Some <==> board.cells[x][y]
                == State::Empty) by {
                if x == nr && y == nc {
                } else {
                    assert(before[x]@[y] == fill@[x]@[y]);
                }
            }
            assert forall|x: int, y: int|
                board.inside(x, y) && (#[trigger] old(fill)@[x]@[y]) == Some(true) implies fill@[x]@[y]
                == Some(true) by {
                if x == nr && y == nc {
                } else {
                    assert(before[x]@[y] == fill@[x]@[y]);
                }
            }
            assert forall|j: int|
                #![trigger moved(r as int, c as int, d, j)]
                1 <= j <= k + 1 implies !sol@[moved(r as int, c as int, d, j).0][moved(
                r as int,
                c as int,
                d,
                j,
            ).1] && fill@[moved(r as int, c as int, d, j).0]@[moved(r as int, c as int, d, j).1]
                == Some(true) by {
                let mj = moved(r as int, c as int, d, j);
                if j <= k {
                    assert(board.open_at(mj.0, mj.1));
                    if mj.0 == nr && mj.1 == nc {
                    } else {
                        assert(before[mj.0]@[mj.1] == fill@[mj.0]@[mj.1]);
                    }
                }
            }
        }
        k = k + 1;
    }
    proof {
        assert forall|q: int| !sees(board, sol@, r as int, c as int, d, q) by {
            if q >= 1 {
                let mq = moved(r as int, c as int, d, q);
                if q <= k {
                } else {
                    assert(!board.inside(mq.0, mq.1));
                }
            }
        }
        assert forall|q: int|
            q >= 1 && #[trigger] open_run(board, r as int, c as int, d, q) implies fill@[moved(
            r as int,
            c as int,
            d,
            q,
        ).0]@[moved(r as int, c as int, d, q).1] == Some(true) by {
            let mq = moved(r as int, c as int, d, q);
            if q > k {
                assert(!board.inside(mq.0, mq.1));
                assert(board.open_at(mq.0, mq.1));
            }
        }
    }
    false
}


/// Marks for a field on which no light has been swept yet: `Some(false)`
/// on every empty cell, `None` on every wall.
pub fn dark_marks(field: &Field) -> (fill: Vec<Vec<Option<bool>>>)
    requires
        field.wf(),
    ensures
        marks_shaped(fill@, field@),
        forall|x: int, y: int| field@.inside(x, y) ==> (#[trigger] fill@[x]@[y]) != Some(true),
{
    let mut fill: Vec<Vec<Option<bool>>> = Vec::new();
    let mut r: usize = 0;
    while r < field.h
        invariant
            field.wf(),
            0 <= r <= field.h,
            fill@.len() == r,
            forall|x: int| 0 <= x < r ==> (#[trigger] fill@[x])@.len() == field.w,
            forall|x: int, y: int|
                0 <= x < r && 0 <= y < field.w ==> (#[trigger] fill@[x]@[y]) == (if field@.cells[x][y]
                    == State::Empty {
                    Some(false)
                } else {
                    None::<bool>
                }),
        decreases field.h - r,
    {
        let mut row: Vec<Option<bool>> = Vec::new();
        let mut c: usize = 0;
        assert(field@.cells[r as int].len() == field.w);
        while c < field.w
            invariant
                field.wf(),
                0 <= r < field.h,
                0 <= c <= field.w,
                field.field@[r as int]@.len() == field.w,
                row@.len() == c,
                forall|y: int|
                    0 <= y < c ==> (#[trigger] row@[y]) == (if field@.cells[r as int][y]
                        == State::Empty {
                        Some(false)
                    } else {
                        None::<bool>
                    }),
            decreases field.w - c,
        {
            if field.field[r][c].is_empty() {
                row.push(Some(false));
            } else {
                row.push(None);
            }
            c = c + 1;
        }
        fill.push(row);
        r = r + 1;
    }
    fill
}

/// Judges a placement of lights on its own, sharing nothing with any solver:
/// first the walls and their numbers, then lights that shine on each other,
/// then cells left dark.
pub fn check(field: &Field, sol: &Solution) -> (res: Result<(), &'static str>)
    requires
        field.wf(),
        fits(sol@, field@),
    ensures
        judged(field@, sol@, res),
{
    let (h, w) = (field.h, field.w);
    let ghost board = field@;
    let ghost lights = sol@;
    // walls and numbers
    let mut r: usize = 0;
    while r < h
        invariant
            field.wf(),
            fits(sol@, field@),
            board == field@,
            lights == sol@,
            h == field.h,
            w == field.w,
            0 <= r <= h,
            forall|x: int, y: int| 0 <= x < r && 0 <= y < w ==> !miscounted(board, lights, x, y),
        decreases h - r,
    {
        let mut c: usize = 0;
        while c < w
            invariant
                field.wf(),
                fits(sol@, field@),
                board == field@,
                lights == sol@,
                h == field.h,
                w == field.w,
                0 <= r < h,
                0 <= c <= w,
                forall|x: int, y: int|
                    0 <= x < r && 0 <= y < w ==> !miscounted(board, lights, x, y),
                forall|y: int| 0 <= y < c ==> !miscounted(board, lights, r as int, y),
            decreases w - c,
        {
            assert(board.cells[r as int].len() == w);
            assert(lights[r as int].len() == w);
            let around = lights_near(field, sol, r, c);
            let here = sol.field[r][c];
            let wrong = match field.field[r][c] {
                State::Nil => here,
                State::Empty => false,
                State::Adj0 => here || around != 0,
                State::Adj1 => here || around != 1,
                State::Adj2 => here || around != 2,
                State::Adj3 => here || around != 3,
                State::Adj4 => here || around != 4,
            };
            if wrong {
                assert(board.inside(r as int, c as int) && miscounted(
                    board,
                    lights,
                    r as int,
                    c as int,
                ));
                return Err(MISMATCH_AKARI);
            }
            c = c + 1;
        }
        r = r + 1;
    }
    assert(lights_on_open(board, lights)) by {
        assert forall|x: int, y: int| board.inside(x, y) && #[trigger] lights[x][y] implies board.open_at(
            x,
            y,
        ) by {
            assert(!miscounted(board, lights, x, y));
        }
    }
    // lights that shine on each other
    let mut fill = dark_marks(field);
    let mut r: usize = 0;
    while r < h
        invariant
            field.wf(),
            fits(sol@, field@),
            board == field@,
            lights == sol@,
            h == field.h,
            w == field.w,
            0 <= r <= h,
            lights_on_open(board, lights),
            forall|x: int, y: int| board.inside(x, y) ==> !miscounted(board, lights, x, y),
            marks_shaped(fill@, board),
            marks_sound(fill@, board, lights),
            forall|x: int, y: int|
                0 <= x < r && 0 <= y < w ==> #[trigger] swept(fill@, board, lights, x, y),
        decreases h - r,
    {
        let mut c: usize = 0;
        while c < w
            invariant
                field.wf(),
                fits(sol@, field@),
                board == field@,
                lights == sol@,
                h == field.h,
                w == field.w,
                0 <= r < h,
                0 <= c <= w,
                lights_on_open(board, lights),
                forall|x: int, y: int| board.inside(x, y) ==> !miscounted(board, lights, x, y),
                marks_shaped(fill@, board),
                marks_sound(fill@, board, lights),
                forall|x: int, y: int|
                    0 <= x < r && 0 <= y < w ==> #[trigger] swept(fill@, board, lights, x, y),
                forall|y: int| 0 <= y < c ==> #[trigger] swept(fill@, board, lights, r as int, y),
            decreases w - c,
        {
            assert(lights[r as int].len() == w);
            if sol.field[r][c] {
                let ghost start = fill@;
                assert(board.open_at(r as int, c as int));
                fill[r][c] = Some(true);
                proof {
                    assert(lights[r as int][c as int]);
                    assert(marks_sound(fill@, board, lights)) by {
                        assert forall|x: int, y: int|
                            board.inside(x, y) && (#[trigger] fill@[x]@[y]) == Some(
                                true,
                            ) implies lit(board, lights, x, y) by {
                            if x == r && y == c {
                            } else {
                                assert(start[x]@[y] == fill@[x]@[y]);
                            }
                        }
                    }
                    assert(marks_shaped(fill@, board)) by {
                        assert forall|x: int, y: int| board.inside(x, y) implies ((
                        #[trigger] fill@[x]@[y]) is Some <==> board.cells[x][y]
                            == State::Empty) by {
                            if x == r && y == c {
                            } else {
                                assert(start[x]@[y] == fill@[x]@[y]);
                            }
                        }
                    }
                    assert(marks_kept(start, fill@, board)) by {
                        assert forall|x: int, y: int|
                            board.inside(x, y) && (#[trigger] start[x]@[y]) == Some(
                                true,
                            ) implies fill@[x]@[y] == Some(true) by {
                            if x == r && y == c {
                            } else {
                                assert(start[x]@[y] == fill@[x]@[y]);
                            }
                        }
                    }
                }
                let mut i: usize = 0;
                while i < 4
                    invariant
                        field.wf(),
                        fits(sol@, field@),
                        board == field@,
                        lights == sol@,
                        h == field.h,
                        w == field.w,
                        0 <= r < h,
                        0 <= c < w,
                        0 <= i <= 4,
                        lights[r as int][c as int],
                        forall|x: int, y: int|
                            board.inside(x, y) ==> !miscounted(board, lights, x, y),
                        fill@[r as int]@[c as int] == Some(true),
                        marks_shaped(fill@, board),
                        marks_sound(fill@, board, lights),
                        marks_kept(start, fill@, board),
                        forall|j: int, k: int|
                            0 <= j < i ==> !sees(board, lights, r as int, c as int, direction(j), k),
                        forall|j: int|
                            0 <= j < i ==> #[trigger] beam_marked(
                                fill@,
                                board,
                                r as int,
                                c as int,
                                direction(j),
                            ),
                    decreases 4 - i,
                {
                    let ghost mid = fill@;
                    let hit = sweep(field, sol, &mut fill, r, c, i);
                    if hit {
                        proof {
                            let k = choose|k: int|
                                sees(board, lights, r as int, c as int, direction(i as int), k);
                            assert(sees(board, lights, r as int, c as int, direction(i as int), k));
                            assert(sees_any(board, lights, r as int, c as int));
                            assert(board.inside(r as int, c as int));
                        }
                        return Err(OVERLAP_AKARI);
                    }
                    proof {
                        lemma_kept_beams(mid, fill@, board, r as int, c as int, i as int);
                    }
                    i = i + 1;
                }
                proof {
                    assert(swept(fill@, board, lights, r as int, c as int));
                    lemma_kept_swept(start, fill@, board, lights, r as int, c as int);
                }
            } else {
                assert(swept(fill@, board, lights, r as int, c as int));
            }
            c = c + 1;
        }
        r = r + 1;
    }
    assert(!exists|x: int, y: int| board.inside(x, y) && lights[x][y] && sees_any(board, lights, x, y))
        by {
        assert forall|x: int, y: int| board.inside(x, y) && lights[x][y] implies !sees_any(
            board,
            lights,
            x,
            y,
        ) by {
            assert(swept(fill@, board, lights, x, y));
        }
    }
    // cells left dark
    let mut r: usize = 0;
    while r < h
        invariant
            field.wf(),
            fits(sol@, field@),
            board == field@,
            lights == sol@,
            h == field.h,
            w == field.w,
            0 <= r <= h,
            forall|x: int, y: int| board.inside(x, y) ==> !miscounted(board, lights, x, y),
            !exists|x: int, y: int|
                board.inside(x, y) && lights[x][y] && sees_any(board, lights, x, y),
            marks_shaped(fill@, board),
            marks_sound(fill@, board, lights),
            forall|x: int, y: int|
                0 <= x < h && 0 <= y < w ==> #[trigger] swept(fill@, board, lights, x, y),
            forall|x: int, y: int|
                0 <= x < r && 0 <= y < w && board.open_at(x, y) ==> lit(board, lights, x, y),
        decreases h - r,
    {
        let mut c: usize = 0;
        while c < w
            invariant
                field.wf(),
                fits(sol@, field@),
                board == field@,
                lights == sol@,
                h == field.h,
                w == field.w,
                0 <= r < h,
                0 <= c <= w,
                forall|x: int, y: int| board.inside(x, y) ==> !miscounted(board, lights, x, y),
                !exists|x: int, y: int|
                    board.inside(x, y) && lights[x][y] && sees_any(board, lights, x, y),
                marks_shaped(fill@, board),
                marks_sound(fill@, board, lights),
                forall|x: int, y: int|
                    0 <= x < h && 0 <= y < w ==> #[trigger] swept(fill@, board, lights, x, y),
                forall|x: int, y: int|
                    0 <= x < r && 0 <= y < w && board.open_at(x, y) ==> lit(board, lights, x, y),
                forall|y: int|
                    0 <= y < c && board.open_at(r as int, y) ==> lit(board, lights, r as int, y),
            decreases w - c,
        {
            assert(fill@[r as int]@.len() == w);
            let dark = match fill[r][c] {
                Some(bright) => !bright,
                None => false,
            };
            if dark {
                proof {
                    lemma_dark_unlit(fill@, board, lights, r as int, c as int);
                    assert(board.open_at(r as int, c as int) && !lit(
                        board,
                        lights,
                        r as int,
                        c as int,
                    ));
                }
                return Err(UNLIT_CELL);
            }
            assert(board.open_at(r as int, c as int) ==> fill@[r as int]@[c as int] == Some(true));
            c = c + 1;
        }
        r = r + 1;
    }
    Ok(())
}


/// A copy of a grid of plain values.
pub fn copy_grid<T: Copy>(grid: &Vec<Vec<T>>) -> (res: Vec<Vec<T>>)
    ensures
        res@.len() == grid@.len(),
        forall|x: int| 0 <= x < grid@.len() ==> (#[trigger] res@[x])@ == grid@[x]@,
{
    let mut res: Vec<Vec<T>> = Vec::new();
    let mut r: usize = 0;
    while r < grid.len()
        invariant
            0 <= r <= grid@.len(),
            res@.len() == r,
            forall|x: int| 0 <= x < r ==> (#[trigger] res@[x])@ == grid@[x]@,
        decreases grid@.len() - r,
    {
        let mut row: Vec<T> = Vec::new();
        let mut c: usize = 0;
        while c < grid[r].len()
            invariant
                0 <= r < grid@.len(),
                0 <= c <= grid@[r as int]@.len(),
                row@ == grid@[r as int]@.take(c as int),
            decreases grid@[r as int]@.len() - c,
        {
            row.push(grid[r][c]);
            proof {
                assert(grid@[r as int]@.take(c + 1) =~= grid@[r as int]@.take(c as int).push(
                    grid@[r as int]@[c as int],
                ));
            }
            c = c + 1;
        }
        proof {
            assert(grid@[r as int]@.take(c as int) =~= grid@[r as int]@);
        }
        res.push(row);
        r = r + 1;
    }
    res
}

/// A grid of `h` rows of `w` copies of `value`.
pub fn filled_grid<T: Copy>(h: usize, w: usize, value: T) -> (res: Vec<Vec<T>>)
    ensures
        res@.len() == h,
        forall|x: int| 0 <= x < h ==> (#[trigger] res@[x])@ == Seq::new(w as nat, |y: int| value),
{
    let mut res: Vec<Vec<T>> = Vec::new();
    let mut r: usize = 0;
    while r < h
        invariant
            0 <= r <= h,
            res@.len() == r,
            forall|x: int|
                0 <= x < r ==> (#[trigger] res@[x])@ == Seq::new(w as nat, |y: int| value),
        decreases h - r,
    {
        let mut row: Vec<T> = Vec::new();
        let mut c: usize = 0;
        while c < w
            invariant
                0 <= c <= w,
                row@ == Seq::new(c as nat, |y: int| value),
            decreases w - c,
        {
            row.push(value);
            c = c + 1;
            assert(row@ =~= Seq::new(c as nat, |y: int| value));
        }
        res.push(row);
        r = r + 1;
    }
    res
}

impl Solution {
    /// A copy of the placement.
    pub fn duplicate(&self) -> (res: Solution)
        ensures
            res@ == self@,
    {
        let res = Solution { field: copy_grid(&self.field) };
        assert(res@ =~= self@);
        res
    }
}

/// The field is well formed and its cells can be counted in a `usize`.
pub open spec fn solvable_input(field: &Field) -> bool {
    field.wf() && field.h * field.w <= usize::MAX
}

/// A solver finds a placement of lights for a field, or reports that it found none.
pub trait Solver {
    /// Whatever is returned is a solution of the puzzle.
    fn solve(&self, field: &Field) -> (res: Option<Solution>)
        requires
            solvable_input(field),
        ensures
            res matches Some(s) ==> solves(field@, s@),
    ;

    /// The verdict of the independent verifier on `sol`.
    fn _check(field: &Field, sol: &Solution) -> (res: Result<(), &'static str>)
        requires
            field.wf(),
            fits(sol@, field@),
        ensures
            judged(field@, sol@, res),
    {
        check(field, sol)
    }
}

} // verus!
