//! The puzzle field: cell kinds, the parsed grid, and a candidate solution.

use vstd::prelude::*;

verus! {

/// Kind of one grid cell.
#[derive(Debug, Clone, Copy, PartialEq, Eq, Structural)]
pub enum State {
    /// A plain wall.
    Nil,
    /// An empty cell, the only kind that can hold a light.
    Empty,
    /// A wall that wants no light beside it.
    Adj0,
    /// A wall that wants exactly one light beside it.
    Adj1,
    /// A wall that wants exactly two lights beside it.
    Adj2,
    /// A wall that wants exactly three lights beside it.
    Adj3,
    /// A wall that wants exactly four lights beside it.
    Adj4,
}

/// The cell kind that a character denotes, if any.
pub open spec fn cell_of_char(c: char) -> Option<State> {
    if c == '#' {
        Some(State::Nil)
    } else if c == '.' {
        Some(State::Empty)
    } else if c == '0' {
        Some(State::Adj0)
    } else if c == '1' {
        Some(State::Adj1)
    } else if c == '2' {
        Some(State::Adj2)
    } else if c == '3' {
        Some(State::Adj3)
    } else if c == '4' {
        Some(State::Adj4)
    } else {
        None
    }
}

impl State {
    /// The number of lights a numbered wall asks for.
    pub open spec fn target(self) -> Option<nat> {
        match self {
            State::Adj0 => Some(0),
            State::Adj1 => Some(1),
            State::Adj2 => Some(2),
            State::Adj3 => Some(3),
            State::Adj4 => Some(4),
            _ => None,
        }
    }

    /// Reads one cell: `#` is a wall, `.` is empty, `0` to `4` are numbered walls.
    pub fn from_char(c: char) -> (res: Result<Self, &'static str>)
        ensures
            match res {
                Ok(s) => cell_of_char(c) == Some(s),
                Err(e) => cell_of_char(c) is None && e@ == "cell parse error"@,
            },
    {
        match c {
            '#' => Ok(Self::Nil),
            '.' => Ok(Self::Empty),
            '0' => Ok(Self::Adj0),
            '1' => Ok(Self::Adj1),
            '2' => Ok(Self::Adj2),
            '3' => Ok(Self::Adj3),
            '4' => Ok(Self::Adj4),
            _ => Err("cell parse error"),
        }
    }

    /// Whether the cell is empty.
    pub fn is_empty(&self) -> (b: bool)
        ensures
            b == (*self == State::Empty),
    {
        matches!(self, Self::Empty)
    }

    /// The number of a numbered wall, `None` for any other cell.
    pub fn is_adj(&self) -> (k: Option<usize>)
        ensures
            match k {
                Some(n) => self.target() == Some(n as nat),
                None => self.target() is None,
            },
    {
        match self {
            Self::Adj0 => Some(0),
            Self::Adj1 => Some(1),
            Self::Adj2 => Some(2),
            Self::Adj3 => Some(3),
            Self::Adj4 => Some(4),
            _ => None,
        }
    }
}


/// Mathematical picture of a field: its declared size and its cells, row by row.
pub struct Board {
    pub h: nat,
    pub w: nat,
    pub cells: Seq<Seq<State>>,
}

impl Board {
    /// There are `h` rows and every row has `w` cells.
    pub open spec fn wf(self) -> bool {
        &&& self.cells.len() == self.h
        &&& forall|r: int| 0 <= r < self.h ==> (#[trigger] self.cells[r]).len() == self.w
    }

    /// `(r, c)` names a cell of the grid.
    pub open spec fn inside(self, r: int, c: int) -> bool {
        0 <= r < self.h && 0 <= c < self.w
    }

    /// `(r, c)` names an empty cell of the grid.
    pub open spec fn open_at(self, r: int, c: int) -> bool {
        self.inside(r, c) && self.cells[r][c] == State::Empty
    }
}

/// A parsed puzzle.
#[derive(Debug, PartialEq, Eq)]
pub struct Field {
    pub h: usize,
    pub w: usize,
    pub field: Vec<Vec<State>>,
}

impl View for Field {
    type V = Board;

    open spec fn view(&self) -> Board {
        Board {
            h: self.h as nat,
            w: self.w as nat,
            cells: Seq::new(self.field@.len(), |r: int| self.field@[r]@),
        }
    }
}

/// A placement of lights: `true` where a light stands.
#[derive(Debug, Clone, PartialEq)]
pub struct Solution {
    pub field: Vec<Vec<bool>>,
}

impl View for Solution {
    type V = Seq<Seq<bool>>;

    open spec fn view(&self) -> Seq<Seq<bool>> {
        Seq::new(self.field@.len(), |r: int| self.field@[r]@)
    }
}

/// The places of the lights among the first `k` cells of row `r`, left to right.
pub open spec fn lights_in_row(row: Seq<bool>, r: int, k: int) -> Seq<(usize, usize)>
    decreases k,
{
    if k <= 0 {
        Seq::empty()
    } else {
        let before = lights_in_row(row, r, k - 1);
        if row[k - 1] {
            before.push((r as usize, (k - 1) as usize))
        } else {
            before
        }
    }
}

/// The places of the lights in the first `k` rows, in row-major order.
pub open spec fn lights_in_rows(lights: Seq<Seq<bool>>, k: int) -> Seq<(usize, usize)>
    decreases k,
{
    if k <= 0 {
        Seq::empty()
    } else {
        lights_in_rows(lights, k - 1) + lights_in_row(lights[k - 1], k - 1, lights[k - 1].len() as int)
    }
}

impl Solution {
    /// The places `(row, column)` of the lights, in row-major order.
    pub fn akari_indices(&self) -> (res: Vec<(usize, usize)>)
        ensures
            res@ == lights_in_rows(self@, self@.len() as int),
    {
        let mut res: Vec<(usize, usize)> = Vec::new();
        let mut r: usize = 0;
        while r < self.field.len()
            invariant
                0 <= r <= self.field@.len(),
                res@ == lights_in_rows(self@, r as int),
            decreases self.field@.len() - r,
        {
            let ghost before = res@;
            let mut c: usize = 0;
            while c < self.field[r].len()
                invariant
                    0 <= r < self.field@.len(),
                    0 <= c <= self.field@[r as int]@.len(),
                    res@ == before + lights_in_row(self@[r as int], r as int, c as int),
                decreases self.field@[r as int]@.len() - c,
            {
                if self.field[r][c] {
                    res.push((r, c));
                }
                c = c + 1;
                assert(res@ =~= before + lights_in_row(self@[r as int], r as int, c as int));
            }
            r = r + 1;
        }
        res
    }
}

/// The placement has exactly the shape of the board.
pub open spec fn fits(lights: Seq<Seq<bool>>, board: Board) -> bool {
    &&& lights.len() == board.h
    &&& forall|r: int| 0 <= r < board.h ==> (#[trigger] lights[r]).len() == board.w
}

/// Why a text fails to describe a field.
pub enum ParseFault {
    /// A character that denotes no cell.
    Cell,
    /// A row of the wrong width, or the wrong number of rows.
    Shape,
}

/// The message that reports the fault.
pub open spec fn fault_message(f: ParseFault) -> Seq<char> {
    match f {
        ParseFault::Cell => "cell parse error"@,
        ParseFault::Shape => "failed to parse"@,
    }
}

/// ASCII whitespace: space, tab, line feed, form feed, carriage return.
pub open spec fn is_space(c: char) -> bool {
    c == ' ' || c == '\t' || c == '\n' || c == '\x0C' || c == '\r'
}

/// The maximal runs of non-space characters of `s`, in order.
///
/// Defined on the last character: a space closes the run before it, a
/// character after a space (or at the start) opens a run, any other
/// character extends the last run.
pub open spec fn tokens(s: Seq<char>) -> Seq<Seq<char>>
    decreases s.len(),
{
    if s.len() == 0 {
        Seq::empty()
    } else {
        let init = s.drop_last();
        let prev = tokens(init);
        if is_space(s.last()) {
            prev
        } else if init.len() == 0 || is_space(init.last()) || prev.len() == 0 {
            prev.push(seq![s.last()])
        } else {
            prev.update(prev.len() - 1, prev.last().push(s.last()))
        }
    }
}

/// What is wrong with one row of text, a bad character counting before a bad width.
pub open spec fn row_fault(t: Seq<char>, w: nat) -> Option<ParseFault> {
    if exists|i: int| 0 <= i < t.len() && cell_of_char(#[trigger] t[i]) is None {
        Some(ParseFault::Cell)
    } else if t.len() != w {
        Some(ParseFault::Shape)
    } else {
        None
    }
}

/// The fault of the first faulty row, if any row is faulty.
pub open spec fn first_fault(toks: Seq<Seq<char>>, w: nat) -> Option<ParseFault>
    decreases toks.len(),
{
    if toks.len() == 0 {
        None
    } else {
        match first_fault(toks.drop_last(), w) {
            Some(f) => Some(f),
            None => row_fault(toks.last(), w),
        }
    }
}

/// The cells that a row of text denotes.
pub open spec fn row_cells(t: Seq<char>) -> Seq<State> {
    Seq::new(t.len(), |i: int| cell_of_char(t[i]).unwrap())
}

/// The field of the declared size that the rows of text describe, or why there is none.
pub open spec fn parse_rows(h: nat, w: nat, rows: Seq<Seq<char>>) -> Result<Board, ParseFault> {
    match first_fault(rows, w) {
        Some(f) => Err(f),
        None => if rows.len() != h {
            Err(ParseFault::Shape)
        } else {
            Ok(Board { h, w, cells: Seq::new(rows.len(), |r: int| row_cells(rows[r])) })
        },
    }
}

/// The field that the text `s` describes for the declared size, or why there is none.
pub open spec fn parse_grid(h: nat, w: nat, s: Seq<char>) -> Result<Board, ParseFault> {
    parse_rows(h, w, tokens(s))
}

/// The rows of a matrix of characters.
pub open spec fn rows_of(matrix: Seq<Vec<char>>) -> Seq<Seq<char>> {
    Seq::new(matrix.len(), |k: int| matrix[k]@)
}

/// The width of a matrix: the length of its first row, zero where it has no row.
pub open spec fn width_of(matrix: Seq<Vec<char>>) -> nat {
    if matrix.len() == 0 {
        0
    } else {
        matrix[0]@.len()
    }
}

/// The character that shows one cell.
pub open spec fn glyph(s: State, light: bool) -> char {
    match s {
        State::Nil => '#',
        State::Empty => if light { 'A' } else { '.' },
        State::Adj0 => '0',
        State::Adj1 => '1',
        State::Adj2 => '2',
        State::Adj3 => '3',
        State::Adj4 => '4',
    }
}

/// One rendered row, closed by a line feed.
pub open spec fn render_row(cells: Seq<State>, lights: Seq<bool>) -> Seq<char> {
    Seq::new(cells.len(), |c: int| glyph(cells[c], lights[c])).push('\n')
}

/// The first `k` rendered rows.
pub open spec fn render_rows(board: Board, lights: Seq<Seq<bool>>, k: nat) -> Seq<char>
    decreases k,
{
    if k == 0 {
        Seq::empty()
    } else {
        render_rows(board, lights, (k - 1) as nat) + render_row(
            board.cells[k - 1],
            lights[k - 1],
        )
    }
}

/// The rendered field with its lights.
pub open spec fn render(board: Board, lights: Seq<Seq<bool>>) -> Seq<char> {
    render_rows(board, lights, board.h)
}

/// The text `s` with every `A` read as `.`.
pub open spec fn unlit(s: Seq<char>) -> Seq<char> {
    Seq::new(s.len(), |i: int| if s[i] == 'A' { '.' } else { s[i] })
}

/// One row as text, without lights and without the closing line feed.
pub open spec fn plain_row(cells: Seq<State>) -> Seq<char> {
    Seq::new(cells.len(), |c: int| glyph(cells[c], false))
}

/// A word that follows a space (or the start) is one more token.
proof fn lemma_tokens_word(s: Seq<char>, word: Seq<char>)
    requires
        s.len() == 0 || is_space(s.last()),
        word.len() > 0,
        forall|i: int| 0 <= i < word.len() ==> !is_space(#[trigger] word[i]),
    ensures
        tokens(s + word) == tokens(s).push(word),
    decreases word.len(),
{
    let whole = s + word;
    assert(whole.drop_last() =~= s + word.drop_last());
    assert(whole.last() == word.last());
    assert(!is_space(word[word.len() - 1]));
    if word.len() == 1 {
        assert(s + word.drop_last() =~= s);
        assert(word =~= seq![word.last()]);
    } else {
        let shorter = word.drop_last();
        assert(forall|i: int| 0 <= i < shorter.len() ==> shorter[i] == word[i]);
        lemma_tokens_word(s, shorter);
        assert((s + shorter).last() == shorter.last());
        assert(!is_space(word[word.len() - 2]));
        assert(shorter.push(word.last()) =~= word);
        assert(tokens(s).push(shorter).update(tokens(s).len() as int, word) =~= tokens(s).push(
            word,
        ));
    }
}

/// The rendered rows, read without lights, split into the rows' own texts.
proof fn lemma_render_tokens(board: Board, lights: Seq<Seq<bool>>, k: nat)
    requires
        board.wf(),
        fits(lights, board),
        k <= board.h,
        board.w > 0,
    ensures
        tokens(unlit(render_rows(board, lights, k))) == Seq::new(
            k,
            |r: int| plain_row(board.cells[r]),
        ),
        k > 0 ==> is_space(unlit(render_rows(board, lights, k)).last()),
        unlit(render_rows(board, lights, k)).len() == k * (board.w + 1),
    decreases k,
{
    let text = unlit(render_rows(board, lights, k));
    if k == 0 {
        assert(tokens(text) =~= Seq::new(k, |r: int| plain_row(board.cells[r])));
    } else {
        let j = (k - 1) as nat;
        lemma_render_tokens(board, lights, j);
        let before = unlit(render_rows(board, lights, j));
        let word = plain_row(board.cells[j as int]);
        assert(board.cells[j as int].len() == board.w);
        assert(lights[j as int].len() == board.w);
        assert(text.len() == k * (board.w + 1)) by (nonlinear_arith)
            requires
                text.len() == before.len() + board.w + 1,
                before.len() == j * (board.w + 1),
                j == k - 1,
        ;
        assert(text =~= (before + word).push('\n'));
        assert(text.drop_last() =~= before + word);
        assert forall|i: int| 0 <= i < word.len() implies !is_space(#[trigger] word[i]) by {}
        lemma_tokens_word(before, word);
        assert(tokens(text) =~= Seq::new(k, |r: int| plain_row(board.cells[r])));
    }
}

/// Rows without fault make a text without fault.
proof fn lemma_no_fault(toks: Seq<Seq<char>>, w: nat)
    requires
        forall|k: int| 0 <= k < toks.len() ==> row_fault(#[trigger] toks[k], w) is None,
    ensures
        first_fault(toks, w) is None,
    decreases toks.len(),
{
    if toks.len() > 0 {
        lemma_no_fault(toks.drop_last(), w);
    }
}

/// Rendering, then reading the text back with every light taken for an
/// empty cell, gives the field that was rendered. (A field with rows but
/// no columns renders to blank lines, which hold no row at all.)
pub proof fn lemma_render_round_trip(board: Board, lights: Seq<Seq<bool>>)
    requires
        board.wf(),
        fits(lights, board),
        board.h > 0 ==> board.w > 0,
    ensures
        parse_grid(board.h, board.w, unlit(render(board, lights))) == Ok::<Board, ParseFault>(
            board,
        ),
{
    let text = unlit(render(board, lights));
    if board.h == 0 {
        assert(text =~= Seq::empty());
        assert(board.cells =~= Seq::new(0, |r: int| row_cells(tokens(text)[r])));
    } else {
        lemma_render_tokens(board, lights, board.h);
        let toks = tokens(text);
        assert forall|k: int| 0 <= k < toks.len() implies row_fault(#[trigger] toks[k], board.w)
            is None by {
            assert(board.cells[k].len() == board.w);
        }
        lemma_no_fault(toks, board.w);
        let cells = Seq::new(toks.len(), |r: int| row_cells(toks[r]));
        assert forall|r: int| 0 <= r < board.h implies #[trigger] cells[r] == board.cells[r] by {
            assert(board.cells[r].len() == board.w);
            assert(cells[r] =~= board.cells[r]);
        }
        assert(cells =~= board.cells);
    }
}

/// A fault found among the first rows is the fault of the whole text.
proof fn lemma_first_fault_stays(toks: Seq<Seq<char>>, w: nat, k: int)
    requires
        0 <= k <= toks.len(),
        first_fault(toks.take(k), w) is Some,
    ensures
        first_fault(toks, w) == first_fault(toks.take(k), w),
    decreases toks.len() - k,
{
    if k == toks.len() {
        assert(toks.take(k) =~= toks);
    } else {
        assert(toks.take(k + 1).drop_last() =~= toks.take(k));
        lemma_first_fault_stays(toks, w, k + 1);
    }
}

/// Appends one character to a string (`String::push`): the text grows by that character.
#[verifier::external_body]
pub(crate) fn push_char(s: &mut String, c: char)
    ensures
        final(s)@ == old(s)@.push(c),
{
    s.push(c)
}

/// The characters of a string slice, in order.
pub fn chars_of(s: &str) -> (v: Vec<char>)
    ensures
        v@ == s@,
{
    let mut v: Vec<char> = Vec::new();
    for c in it: s.chars()
        invariant
            it.seq() == s@,
            v@ == it.seq().take(it.index()),
    {
        v.push(c);
    }
    v
}


/// Splits at ASCII whitespace, dropping empty pieces.
pub fn split_whitespace(chars: &Vec<char>) -> (toks: Vec<Vec<char>>)
    ensures
        toks@.len() == tokens(chars@).len(),
        forall|k: int| 0 <= k < toks@.len() ==> (#[trigger] toks@[k])@ == tokens(chars@)[k],
{
    let mut toks: Vec<Vec<char>> = Vec::new();
    let mut cur: Vec<char> = Vec::new();
    let mut in_word = false;
    let n = chars.len();
    let mut i: usize = 0;
    while i < n
        invariant
            n == chars@.len(),
            0 <= i <= n,
            in_word == (i > 0 && !is_space(chars@[i - 1])),
            in_word ==> tokens(chars@.take(i as int)).len() == toks@.len() + 1 && cur@ == tokens(
                chars@.take(i as int),
            ).last(),
            !in_word ==> tokens(chars@.take(i as int)).len() == toks@.len() && cur@.len() == 0,
            forall|k: int|
                0 <= k < toks@.len() ==> (#[trigger] toks@[k])@ == tokens(chars@.take(i as int))[k],
        decreases n - i,
    {
        let c = chars[i];
        proof {
            assert(chars@.take(i + 1).drop_last() =~= chars@.take(i as int));
            assert(chars@.take(i + 1).last() == c);
        }
        let space = c == ' ' || c == '\t' || c == '\n' || c == '\x0C' || c == '\r';
        if space {
            if in_word {
                toks.push(cur);
                cur = Vec::new();
                in_word = false;
            }
        } else {
            cur.push(c);
            in_word = true;
        }
        i = i + 1;
    }
    proof {
        assert(chars@.take(n as int) =~= chars@);
    }
    if in_word {
        toks.push(cur);
    }
    toks
}

impl Field {
    /// The grid has `h` rows of `w` cells.
    pub open spec fn wf(&self) -> bool {
        self@.wf()
    }

    /// Reads a field of the declared size from rows of characters: `#` is
    /// a wall, `.` an empty cell, `0` to `4` a numbered wall. The first
    /// faulty row decides the error, a bad character counting before a bad
    /// width.
    pub fn from_rows(h: usize, w: usize, toks: &Vec<Vec<char>>) -> (res: Result<Field, &'static str>)
        ensures
            match res {
                Ok(f) => parse_rows(h as nat, w as nat, rows_of(toks@)) == Ok::<Board, ParseFault>(
                    f@,
                ) && f.wf(),
                Err(e) => parse_rows(h as nat, w as nat, rows_of(toks@)) matches Err(fault) && e@
                    == fault_message(fault),
            },
    {
        let ghost texts = rows_of(toks@);
        let mut field: Vec<Vec<State>> = Vec::new();
        let mut k: usize = 0;
        proof {
            assert(texts.take(0) =~= Seq::<Seq<char>>::empty());
        }
        while k < toks.len()
            invariant
                0 <= k <= toks@.len(),
                toks@.len() == texts.len(),
                texts == rows_of(toks@),
                first_fault(texts.take(k as int), w as nat) is None,
                field@.len() == k,
                forall|j: int| 0 <= j < k ==> (#[trigger] field@[j])@ == row_cells(texts[j]),
                forall|j: int| 0 <= j < k ==> texts[j].len() == w,
            decreases toks@.len() - k,
        {
            let tok = &toks[k];
            let mut row: Vec<State> = Vec::new();
            let mut i: usize = 0;
            proof {
                assert(texts.take(k + 1).drop_last() =~= texts.take(k as int));
            }
            while i < tok.len()
                invariant
                    0 <= i <= tok@.len(),
                    tok@ == texts[k as int],
                    texts == rows_of(toks@),
                    0 <= k < texts.len(),
                    row@.len() == i,
                    forall|j: int| 0 <= j < i ==> cell_of_char(tok@[j]) is Some,
                    forall|j: int| 0 <= j < i ==> row@[j] == cell_of_char(tok@[j]).unwrap(),
                    first_fault(texts.take(k as int), w as nat) is None,
                    texts.take(k + 1).drop_last() == texts.take(k as int),
                decreases tok@.len() - i,
            {
                match State::from_char(tok[i]) {
                    Ok(cell) => {
                        row.push(cell);
                    },
                    Err(e) => {
                        proof {
                            assert(cell_of_char(texts[k as int][i as int]) is None);
                            assert(row_fault(texts[k as int], w as nat) == Some(ParseFault::Cell));
                            assert(texts.take(k + 1).last() == texts[k as int]);
                            lemma_first_fault_stays(texts, w as nat, k + 1);
                        }
                        return Err(e);
                    },
                }
                i = i + 1;
            }
            if row.len() != w {
                proof {
                    assert(forall|j: int|
                        0 <= j < texts[k as int].len() ==> cell_of_char(
                            #[trigger] texts[k as int][j],
                        ) is Some);
                    assert(row_fault(texts[k as int], w as nat) == Some(ParseFault::Shape));
                    assert(texts.take(k + 1).last() == texts[k as int]);
                    lemma_first_fault_stays(texts, w as nat, k + 1);
                }
                return Err("failed to parse");
            }
            proof {
                assert(forall|j: int|
                    0 <= j < texts[k as int].len() ==> cell_of_char(#[trigger] texts[k as int][j])
                        is Some);
                assert(row_fault(texts[k as int], w as nat) is None);
                assert(texts.take(k + 1).last() == texts[k as int]);
                assert(row@ =~= row_cells(texts[k as int]));
            }
            field.push(row);
            k = k + 1;
        }
        proof {
            assert(texts.take(k as int) =~= texts);
        }
        if field.len() != h {
            return Err("failed to parse");
        }
        let f = Field { h, w, field };
        proof {
            assert(f@.cells =~= Seq::new(texts.len(), |r: int| row_cells(texts[r])));
        }
        Ok(f)
    }

    /// Reads a field of the declared size from text: rows are separated by
    /// ASCII whitespace, `#` is a wall, `.` an empty cell, `0` to `4` a
    /// numbered wall.
    pub fn from_str(h: usize, w: usize, s: &str) -> (res: Result<Field, &'static str>)
        ensures
            match res {
                Ok(f) => parse_grid(h as nat, w as nat, s@) == Ok::<Board, ParseFault>(f@) && f.wf(),
                Err(e) => parse_grid(h as nat, w as nat, s@) matches Err(fault) && e@
                    == fault_message(fault),
            },
    {
        let chars = chars_of(s);
        let toks = split_whitespace(&chars);
        proof {
            assert(rows_of(toks@) =~= tokens(s@));
        }
        Self::from_rows(h, w, &toks)
    }

    /// Reads a field from a matrix of characters, one row of the matrix
    /// for each row of the field. The field is as high as the matrix and
    /// as wide as its first row; every row must have that width.
    pub fn from_matrix(matrix: &Vec<Vec<char>>) -> (res: Result<Field, &'static str>)
        ensures
            match res {
                Ok(f) => parse_rows(matrix@.len(), width_of(matrix@), rows_of(matrix@)) == Ok::<
                    Board,
                    ParseFault,
                >(f@) && f.wf(),
                Err(e) => parse_rows(matrix@.len(), width_of(matrix@), rows_of(matrix@)) matches Err(
                    fault,
                ) && e@ == fault_message(fault),
            },
    {
        let h = matrix.len();
        let w = if h == 0 {
            0
        } else {
            matrix[0].len()
        };
        Self::from_rows(h, w, matrix)
    }

    /// Renders the field with the lights of `sol`: one line per row, `A` for
    /// a light on an empty cell, `.` for an empty cell without one.
    pub fn display_with_solution(&self, sol: &Solution) -> (s: String)
        requires
            self.wf(),
            fits(sol@, self@),
        ensures
            s@ == render(self@, sol@),
    {
        let mut s = String::new();
        let mut r: usize = 0;
        while r < self.h
            invariant
                self.wf(),
                fits(sol@, self@),
                0 <= r <= self.h,
                s@ == render_rows(self@, sol@, r as nat),
            decreases self.h - r,
        {
            let ghost before = s@;
            let mut c: usize = 0;
            while c < self.w
                invariant
                    self.wf(),
                    fits(sol@, self@),
                    0 <= r < self.h,
                    0 <= c <= self.w,
                    s@ == before + Seq::new(
                        c as nat,
                        |j: int| glyph(self@.cells[r as int][j], sol@[r as int][j]),
                    ),
                decreases self.w - c,
            {
                assert(self@.cells[r as int].len() == self.w);
                assert(sol@[r as int].len() == self.w);
                let ch = match self.field[r][c] {
                    State::Nil => '#',
                    State::Empty => {
                        if sol.field[r][c] {
                            'A'
                        } else {
                            '.'
                        }
                    },
                    State::Adj0 => '0',
                    State::Adj1 => '1',
                    State::Adj2 => '2',
                    State::Adj3 => '3',
                    State::Adj4 => '4',
                };
                push_char(&mut s, ch);
                c = c + 1;
                assert(s@ =~= before + Seq::new(
                    c as nat,
                    |j: int| glyph(self@.cells[r as int][j], sol@[r as int][j]),
                ));
            }
            push_char(&mut s, '\n');
            r = r + 1;
            proof {
                assert(self@.cells[r - 1].len() == self.w);
                assert(s@ =~= before + render_row(self@.cells[r - 1], sol@[r - 1]));
            }
        }
        s
    }
}

} // verus!
