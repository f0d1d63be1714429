use akari::field::{Field, State};
use akari::io::{parse_level_data, SolveRequest, SolveResponse};

#[test]
fn trims_metadata_and_whitespace() {
    let raw = r#". . .
. # .
. . .

Author: Foo
Difficulty: 3"#;

    let (h, w, normalized) = parse_level_data(raw).unwrap();
    assert_eq!((h, w), (3, 3));
    assert_eq!(normalized, "...\n.#.\n...\n");
}

#[test]
fn accepts_space_delimited_rows() {
    let raw = ". . .\n1 . .\n. # .";
    let (h, w, normalized) = parse_level_data(raw).unwrap();
    assert_eq!((h, w), (3, 3));
    assert_eq!(normalized, "...\n1..\n.#.\n");
}

#[test]
fn level_without_rows_is_empty() {
    assert_eq!(parse_level_data(""), Err("level data is empty"));
    assert_eq!(parse_level_data(" \n\t\n"), Err("level data is empty"));
    assert_eq!(parse_level_data("\n\nAuthor: x\n..."), Err("level data is empty"));
}

#[test]
fn rows_of_different_widths_are_refused() {
    assert_eq!(
        parse_level_data("...\n..\n"),
        Err("row widths are inconsistent")
    );
}

#[test]
fn width_is_counted_in_bytes() {
    let (h, w, normalized) = parse_level_data("é.\n...").unwrap();
    assert_eq!((h, w), (2, 3));
    assert_eq!(normalized, "é.\n...\n");
}

#[test]
fn blank_lines_before_the_first_row_are_skipped() {
    let (h, w, normalized) = parse_level_data("\n \r\n  .1\u{3000}.\r\n#..\n\n...\n").unwrap();
    assert_eq!((h, w), (2, 3));
    assert_eq!(normalized, ".1.\n#..\n");
}

#[test]
fn a_note_ends_the_level_only_at_the_start_of_a_line() {
    let (h, _, normalized) = parse_level_data("..\n  Difficulty: 2\n..").unwrap();
    assert_eq!(h, 1);
    assert_eq!(normalized, "..\n");
    let (h, w, normalized) = parse_level_data("abcdefgh\nxAuthor:\n").unwrap();
    assert_eq!((h, w), (2, 8));
    assert_eq!(normalized, "abcdefgh\nxAuthor:\n");
}

#[test]
fn request_becomes_a_field() {
    let req = SolveRequest {
        problem: String::from(". 1\n# .\n\nAuthor: Foo"),
        timeout: Some(3),
    };
    assert_eq!(req.level_data(), ". 1\n# .\n\nAuthor: Foo");
    assert_eq!(
        req.to_field(),
        Ok(Field {
            h: 2,
            w: 2,
            field: vec![
                vec![State::Empty, State::Adj1],
                vec![State::Nil, State::Empty]
            ],
        })
    );
    let bad = SolveRequest {
        problem: String::from(". x\n# ."),
        timeout: None,
    };
    assert_eq!(bad.to_field(), Err("cell parse error"));
    let empty = SolveRequest {
        problem: String::new(),
        timeout: None,
    };
    assert_eq!(empty.to_field(), Err("level data is empty"));
}

#[test]
fn responses_carry_a_solution_or_an_error() {
    let ok = SolveResponse::solved(String::from("A.\n"));
    assert_eq!(ok.solution.as_deref(), Some("A.\n"));
    assert_eq!(ok.error, None);
    let req = SolveRequest {
        problem: String::new(),
        timeout: None,
    };
    let failed = SolveResponse::failed(&req, "No solution found");
    assert_eq!(failed.solution, None);
    assert_eq!(failed.error.as_deref(), Some("No solution found"));
}
