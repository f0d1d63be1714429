//! Requests and responses of the solving service, and the clean-up of the
//! level text that a request carries.

use vstd::prelude::*;
use vstd::string::StringExecFns;
use vstd::utf8::encode_utf8;
use crate::field::{chars_of, parse_grid, push_char, Board, Field};

verus! {

/// A request to solve a level.
#[derive(Debug)]
pub struct SolveRequest {
    pub problem: String,
    pub timeout: Option<u64>,
}

/// The answer to a request: a solution or an error, never both.
#[derive(Debug)]
pub struct SolveResponse {
    pub solution: Option<String>,
    pub error: Option<String>,
}

/// Why a level text holds no level.
pub enum LevelFault {
    /// No row at all.
    Empty,
    /// A first row without a character.
    ZeroWidth,
    /// Rows of different lengths.
    Ragged,
}

/// The message that reports the fault.
pub open spec fn level_fault_message(f: LevelFault) -> Seq<char> {
    match f {
        LevelFault::Empty => "level data is empty"@,
        LevelFault::ZeroWidth => "level data has zero width"@,
        LevelFault::Ragged => "row widths are inconsistent"@,
    }
}

/// White space as Unicode defines it.
pub open spec fn is_white(c: char) -> bool {
    let v = c as u32;
    (0x09 <= v <= 0x0D) || v == 0x20 || v == 0x85 || v == 0xA0 || v == 0x1680 || (0x2000 <= v
        <= 0x200A) || v == 0x2028 || v == 0x2029 || v == 0x202F || v == 0x205F || v == 0x3000
}

/// The pieces of `s` between line feeds. A text without a line feed is one piece.
pub open spec fn pieces(s: Seq<char>) -> Seq<Seq<char>>
    decreases s.len(),
{
    if s.len() == 0 {
        seq![Seq::empty()]
    } else {
        let prev = pieces(s.drop_last());
        if s.last() == '\n' {
            prev.push(Seq::empty())
        } else if prev.len() == 0 {
            seq![seq![s.last()]]
        } else {
            prev.update(prev.len() - 1, prev.last().push(s.last()))
        }
    }
}

/// `s` without its white space.
pub open spec fn squeeze(s: Seq<char>) -> Seq<char>
    decreases s.len(),
{
    if s.len() == 0 {
        Seq::empty()
    } else if is_white(s.last()) {
        squeeze(s.drop_last())
    } else {
        squeeze(s.drop_last()).push(s.last())
    }
}

/// The number of white characters at the start of `s`.
pub open spec fn lead(s: Seq<char>) -> nat
    decreases s.len(),
{
    if s.len() == 0 || !is_white(s[0]) {
        0
    } else {
        1 + lead(s.drop_first())
    }
}

/// `s` begins with `p`.
pub open spec fn starts_with(s: Seq<char>, p: Seq<char>) -> bool {
    s.len() >= p.len() && s.take(p.len() as int) == p
}

/// The line, white space at its start apart, begins a note on the author
/// or on the difficulty: the level ends before it.
pub open spec fn is_note(line: Seq<char>) -> bool {
    let text = line.skip(lead(line) as int);
    starts_with(text, "Author:"@) || starts_with(text, "Difficulty:"@)
}

/// The rows found in the given lines, and whether the level has ended: it
/// ends at a blank line after the first row and at a note.
pub open spec fn scan(lines: Seq<Seq<char>>) -> (Seq<Seq<char>>, bool)
    decreases lines.len(),
{
    if lines.len() == 0 {
        (Seq::empty(), false)
    } else {
        let (rows, ended) = scan(lines.drop_last());
        let row = squeeze(lines.last());
        if ended {
            (rows, true)
        } else if row.len() == 0 {
            (rows, rows.len() > 0)
        } else if is_note(lines.last()) {
            (rows, true)
        } else {
            (rows.push(row), false)
        }
    }
}

/// The rows, each closed by a line feed.
pub open spec fn join_rows(rows: Seq<Seq<char>>) -> Seq<char>
    decreases rows.len(),
{
    if rows.len() == 0 {
        Seq::empty()
    } else {
        join_rows(rows.drop_last()) + rows.last().push('\n')
    }
}

/// The height, the width in bytes and the clean text of the level that
/// `s` holds, or why it holds none.
pub open spec fn level_of(s: Seq<char>) -> Result<(nat, nat, Seq<char>), LevelFault> {
    let rows = scan(pieces(s)).0;
    if rows.len() == 0 {
        Err(LevelFault::Empty)
    } else if encode_utf8(rows[0]).len() == 0 {
        Err(LevelFault::ZeroWidth)
    } else if exists|i: int|
        0 <= i < rows.len() && encode_utf8(#[trigger] rows[i]).len() != encode_utf8(rows[0]).len() {
        Err(LevelFault::Ragged)
    } else {
        Ok((rows.len(), encode_utf8(rows[0]).len(), join_rows(rows)))
    }
}

/// Whether `c` is white space.
fn white(c: char) -> (b: bool)
    ensures
        b == is_white(c),
{
    let v = c as u32;
    (0x09 <= v && v <= 0x0D) || v == 0x20 || v == 0x85 || v == 0xA0 || v == 0x1680 || (0x2000 <= v
        && v <= 0x200A) || v == 0x2028 || v == 0x2029 || v == 0x202F || v == 0x205F || v == 0x3000
}

/// Splits at line feeds.
fn split_lines(chars: &Vec<char>) -> (lines: Vec<Vec<char>>)
    ensures
        lines@.len() == pieces(chars@).len(),
        forall|k: int| 0 <= k < lines@.len() ==> (#[trigger] lines@[k])@ == pieces(chars@)[k],
{
    let mut lines: Vec<Vec<char>> = Vec::new();
    let mut cur: Vec<char> = Vec::new();
    let mut i: usize = 0;
    proof {
        assert(chars@.take(0) =~= Seq::<char>::empty());
    }
    while i < chars.len()
        invariant
            0 <= i <= chars@.len(),
            pieces(chars@.take(i as int)).len() == lines@.len() + 1,
            cur@ == pieces(chars@.take(i as int)).last(),
            forall|k: int|
                0 <= k < lines@.len() ==> (#[trigger] lines@[k])@ == pieces(chars@.take(i as int))[k],
        decreases chars@.len() - i,
    {
        let c = chars[i];
        proof {
            assert(chars@.take(i + 1).drop_last() =~= chars@.take(i as int));
            assert(chars@.take(i + 1).last() == c);
        }
        if c == '\n' {
            lines.push(cur);
            cur = Vec::new();
        } else {
            cur.push(c);
        }
        i = i + 1;
    }
    proof {
        assert(chars@.take(i as int) =~= chars@);
    }
    lines.push(cur);
    lines
}

/// The line without its white space.
fn squeezed(line: &Vec<char>) -> (row: String)
    ensures
        row@ == squeeze(line@),
{
    let mut row = String::new();
    let mut i: usize = 0;
    proof {
        assert(line@.take(0) =~= Seq::<char>::empty());
    }
    while i < line.len()
        invariant
            0 <= i <= line@.len(),
            row@ == squeeze(line@.take(i as int)),
        decreases line@.len() - i,
    {
        proof {
            assert(line@.take(i + 1).drop_last() =~= line@.take(i as int));
            assert(line@.take(i + 1).last() == line@[i as int]);
        }
        if !white(line[i]) {
            push_char(&mut row, line[i]);
        }
        i = i + 1;
    }
    proof {
        assert(line@.take(i as int) =~= line@);
    }
    row
}

/// Whether the line from place `from` on begins with `word`.
fn begins(line: &Vec<char>, from: usize, word: &Vec<char>) -> (b: bool)
    requires
        from <= line@.len(),
    ensures
        b == starts_with(line@.skip(from as int), word@),
{
    let total = line.len();
    if total - from < word.len() {
        return false;
    }
    let ghost text = line@.skip(from as int);
    let mut i: usize = 0;
    while i < word.len()
        invariant
            from <= line@.len(),
            text == line@.skip(from as int),
            text.len() >= word@.len(),
            total == line@.len(),
            from + word@.len() <= total,
            0 <= i <= word@.len(),
            forall|j: int| 0 <= j < i ==> text[j] == word@[j],
        decreases word@.len() - i,
    {
        if line[from + i] != word[i] {
            assert(text.take(word@.len() as int)[i as int] != word@[i as int]);
            return false;
        }
        i = i + 1;
    }
    assert(text.take(word@.len() as int) =~= word@);
    true
}

/// Whether the line begins a note on the author or on the difficulty.
fn note(line: &Vec<char>) -> (b: bool)
    ensures
        b == is_note(line@),
{
    let mut from: usize = 0;
    proof {
        assert(line@.skip(0) =~= line@);
    }
    while from < line.len() && white(line[from])
        invariant
            0 <= from <= line@.len(),
            lead(line@) == from + lead(line@.skip(from as int)),
        decreases line@.len() - from,
    {
        proof {
            assert(line@.skip(from as int).drop_first() =~= line@.skip(from + 1));
        }
        from = from + 1;
    }
    let author = chars_of("Author:");
    let difficulty = chars_of("Difficulty:");
    begins(line, from, &author) || begins(line, from, &difficulty)
}

/// Brings a level text into the form that the field parser reads: one row
/// per line, no white space inside a row, a line feed after every row.
/// The level ends at the first blank line after a row and at a line that
/// begins with `Author:` or `Difficulty:`. Gives the number of rows, the
/// length of the first row in bytes, and the clean text.
pub fn parse_level_data(level_data: &str) -> (res: Result<(usize, usize, String), &'static str>)
    ensures
        match res {
            Ok((h, w, text)) => level_of(level_data@) == Ok::<
                (nat, nat, Seq<char>),
                LevelFault,
            >((h as nat, w as nat, text@)),
            Err(e) => level_of(level_data@) matches Err(fault) && e@ == level_fault_message(fault),
        },
{
    let chars = chars_of(level_data);
    let lines = split_lines(&chars);
    let ghost texts = pieces(level_data@);
    let mut rows: Vec<String> = Vec::new();
    let mut ended = false;
    let mut k: usize = 0;
    proof {
        assert(texts.take(0) =~= Seq::<Seq<char>>::empty());
    }
    while k < lines.len() && !ended
        invariant
            0 <= k <= lines@.len(),
            lines@.len() == texts.len(),
            forall|j: int| 0 <= j < lines@.len() ==> (#[trigger] lines@[j])@ == texts[j],
            rows@.len() == scan(texts.take(k as int)).0.len(),
            forall|j: int|
                0 <= j < rows@.len() ==> (#[trigger] rows@[j])@ == scan(texts.take(k as int)).0[j],
            ended == scan(texts.take(k as int)).1,
        decreases lines@.len() - k,
    {
        proof {
            assert(texts.take(k + 1).drop_last() =~= texts.take(k as int));
            assert(texts.take(k + 1).last() == texts[k as int]);
        }
        let row = squeezed(&lines[k]);
        if row.as_str().is_empty() {
            if rows.len() > 0 {
                ended = true;
            }
        } else if note(&lines[k]) {
            ended = true;
        } else {
            rows.push(row);
        }
        k = k + 1;
    }
    proof {
        lemma_scan_ended(texts, k as int);
    }
    let ghost found = scan(texts).0;
    if rows.len() == 0 {
        return Err("level data is empty");
    }
    let width = rows[0].as_str().as_bytes().len();
    if width == 0 {
        return Err("level data has zero width");
    }
    let mut i: usize = 0;
    while i < rows.len()
        invariant
            0 <= i <= rows@.len(),
            rows@.len() == found.len(),
            found == scan(pieces(level_data@)).0,
            forall|j: int| 0 <= j < rows@.len() ==> (#[trigger] rows@[j])@ == found[j],
            rows@.len() > 0,
            width == encode_utf8(found[0]).len(),
            width != 0,
            forall|j: int| 0 <= j < i ==> encode_utf8(#[trigger] found[j]).len() == width,
        decreases rows@.len() - i,
    {
        if rows[i].as_str().as_bytes().len() != width {
            assert(encode_utf8(found[i as int]).len() != encode_utf8(found[0]).len());
            return Err("row widths are inconsistent");
        }
        i = i + 1;
    }
    let height = rows.len();
    let mut normalized = String::new();
    let mut i: usize = 0;
    proof {
        assert(found.take(0) =~= Seq::<Seq<char>>::empty());
    }
    while i < rows.len()
        invariant
            0 <= i <= rows@.len(),
            rows@.len() == found.len(),
            forall|j: int| 0 <= j < rows@.len() ==> (#[trigger] rows@[j])@ == found[j],
            normalized@ == join_rows(found.take(i as int)),
        decreases rows@.len() - i,
    {
        proof {
            assert(found.take(i + 1).drop_last() =~= found.take(i as int));
            assert(found.take(i + 1).last() == found[i as int]);
        }
        normalized.append(rows[i].as_str());
        push_char(&mut normalized, '\n');
        proof {
            assert(normalized@ =~= join_rows(found.take(i as int)) + found[i as int].push('\n'));
        }
        i = i + 1;
    }
    proof {
        assert(found.take(i as int) =~= found);
    }
    Ok((height, width, normalized))
}

/// Once the level has ended, later lines change nothing.
proof fn lemma_scan_ended(lines: Seq<Seq<char>>, k: int)
    requires
        0 <= k <= lines.len(),
        k == lines.len() || scan(lines.take(k)).1,
    ensures
        scan(lines).0 == scan(lines.take(k)).0,
    decreases lines.len() - k,
{
    if k == lines.len() {
        assert(lines.take(k) =~= lines);
    } else {
        assert(lines.take(k + 1).drop_last() =~= lines.take(k));
        lemma_scan_ended(lines, k + 1);
    }
}

impl SolveResponse {
    /// The response that carries a solution.
    pub fn solved(solution: String) -> (res: Self)
        ensures
            res.solution == Some(solution),
            res.error is None,
    {
        Self { solution: Some(solution), error: None }
    }

    /// The response that carries an error message.
    pub fn failed(_req: &SolveRequest, message: &str) -> (res: Self)
        ensures
            res.solution is None,
            res.error matches Some(e) && e@ == message@,
    {
        Self { solution: None, error: Some(String::from_str(message)) }
    }
}

/// The field that the level text `s` describes, or the message that says why there is none.
pub open spec fn field_of(s: Seq<char>) -> Result<Board, Seq<char>> {
    match level_of(s) {
        Err(fault) => Err(level_fault_message(fault)),
        Ok((h, w, text)) => match parse_grid(h, w, text) {
            Err(fault) => Err(crate::field::fault_message(fault)),
            Ok(board) => Ok(board),
        },
    }
}

impl SolveRequest {
    /// The level text as it came.
    pub fn level_data(&self) -> (s: &str)
        ensures
            s@ == self.problem@,
    {
        self.problem.as_str()
    }

    /// The field that the request describes.
    pub fn to_field(&self) -> (res: Result<Field, &'static str>)
        ensures
            match res {
                Ok(f) => field_of(self.problem@) == Ok::<Board, Seq<char>>(f@) && f.wf(),
                Err(e) => field_of(self.problem@) == Err::<Board, Seq<char>>(e@),
            },
    {
        match parse_level_data(self.level_data()) {
            Err(e) => Err(e),
            Ok((h, w, normalized)) => Field::from_str(h, w, normalized.as_str()),
        }
    }
}

} // verus!
