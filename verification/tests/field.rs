use akari::field::{Field, Solution, State};

#[test]
fn test_parse_field_success() {
    let field_str = "
..1..
#.01.
3.24.
.....
";

    let field_actual = Field::from_str(4, 5, field_str);
    let field_expect = Ok(Field {
        h: 4,
        w: 5,
        field: vec![
            vec![
                State::Empty,
                State::Empty,
                State::Adj1,
                State::Empty,
                State::Empty,
            ],
            vec![
                State::Nil,
                State::Empty,
                State::Adj0,
                State::Adj1,
                State::Empty,
            ],
            vec![
                State::Adj3,
                State::Empty,
                State::Adj2,
                State::Adj4,
                State::Empty,
            ],
            vec![
                State::Empty,
                State::Empty,
                State::Empty,
                State::Empty,
                State::Empty,
            ],
        ],
    });

    assert_eq!(field_actual, field_expect);
}

#[test]
fn test_parse_field_fail() {
    let field_str = "
..1..
#.01.
3.24
.....
";
    let field_actual = Field::from_str(4, 5, field_str);
    println!("{field_actual:?}");
    assert!(field_actual.is_err());
}

#[test]
fn parse_reports_the_first_faulty_row() {
    assert_eq!(Field::from_str(2, 3, "..\n.x."), Err("failed to parse"));
    assert_eq!(Field::from_str(2, 3, ".x.\n.."), Err("cell parse error"));
    assert_eq!(Field::from_str(2, 3, ".x"), Err("cell parse error"));
    assert_eq!(Field::from_str(2, 3, "...\n..."), Field::from_str(2, 3, " ...\t\r\n  ... "));
    assert_eq!(Field::from_str(3, 3, "...\n..."), Err("failed to parse"));
    assert_eq!(Field::from_str(1, 3, "...\n..."), Err("failed to parse"));
}

#[test]
fn parse_of_nothing_is_the_empty_field() {
    assert_eq!(
        Field::from_str(0, 7, " \n "),
        Ok(Field {
            h: 0,
            w: 7,
            field: vec![],
        })
    );
}

#[test]
fn cells_from_characters() {
    assert_eq!(State::from_char('#'), Ok(State::Nil));
    assert_eq!(State::from_char('.'), Ok(State::Empty));
    assert_eq!(State::from_char('0'), Ok(State::Adj0));
    assert_eq!(State::from_char('4'), Ok(State::Adj4));
    assert_eq!(State::from_char('5'), Err("cell parse error"));
    assert_eq!(State::from_char('A'), Err("cell parse error"));
    assert!(State::Empty.is_empty());
    assert!(!State::Nil.is_empty());
    assert_eq!(State::Adj3.is_adj(), Some(3));
    assert_eq!(State::Empty.is_adj(), None);
    assert_eq!(State::Nil.is_adj(), None);
}

#[test]
fn rendering_shows_lights_on_empty_cells_only() {
    let field = Field::from_str(2, 3, "2.1\n..#").unwrap();
    let sol = Solution {
        field: vec![vec![true, true, false], vec![true, false, true]],
    };
    assert_eq!(field.display_with_solution(&sol), "2A1\nA.#\n");
}

#[test]
fn rendered_field_parses_back() {
    let field = Field::from_str(3, 3, "2.1 ... ..0").unwrap();
    let sol = Solution {
        field: vec![
            vec![false, true, false],
            vec![true, false, false],
            vec![false, false, false],
        ],
    };
    let text = field.display_with_solution(&sol).replace('A', ".");
    assert_eq!(Field::from_str(3, 3, &text), Ok(field));
}

#[test]
fn matrix_of_characters_is_read_row_by_row() {
    let matrix = vec![vec!['2', '.', '1'], vec!['.', '#', '.']];
    assert_eq!(
        Field::from_matrix(&matrix),
        Ok(Field {
            h: 2,
            w: 3,
            field: vec![
                vec![State::Adj2, State::Empty, State::Adj1],
                vec![State::Empty, State::Nil, State::Empty]
            ],
        })
    );
    assert_eq!(Field::from_matrix(&matrix), Field::from_str(2, 3, "2.1\n.#."));
    assert_eq!(
        Field::from_matrix(&vec![]),
        Ok(Field {
            h: 0,
            w: 0,
            field: vec![],
        })
    );
    let ragged = vec![vec!['.', '.'], vec!['.']];
    assert_eq!(Field::from_matrix(&ragged), Err("failed to parse"));
    let unknown = vec![vec!['.', '.'], vec!['.', 'A']];
    assert_eq!(Field::from_matrix(&unknown), Err("cell parse error"));
    // the first faulty row decides
    let both = vec![vec!['.', '.'], vec!['.'], vec!['.', 'x']];
    assert_eq!(Field::from_matrix(&both), Err("failed to parse"));
    // an empty row is no row of a text, but it is a row of a matrix
    assert_eq!(
        Field::from_matrix(&vec![vec![], vec![]]),
        Ok(Field {
            h: 2,
            w: 0,
            field: vec![vec![], vec![]],
        })
    );
}

#[test]
fn rows_are_read_for_a_declared_size() {
    let rows = vec![vec!['.', '0'], vec!['4', '#']];
    assert_eq!(
        Field::from_rows(2, 2, &rows),
        Ok(Field {
            h: 2,
            w: 2,
            field: vec![
                vec![State::Empty, State::Adj0],
                vec![State::Adj4, State::Nil]
            ],
        })
    );
    assert_eq!(Field::from_rows(3, 2, &rows), Err("failed to parse"));
    assert_eq!(Field::from_rows(2, 3, &rows), Err("failed to parse"));
}
