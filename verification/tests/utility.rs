use akari::field::{chars_of, split_whitespace};
use akari::progress_bar::ProgressBar;
use akari::solver::Cell;
use akari::utility::{GridUtility, ADJ, DOWN, LEFT, RIGHT, UP};

#[test]
fn directions_come_in_a_fixed_order() {
    assert_eq!(ADJ, [RIGHT, UP, LEFT, DOWN]);
    assert_eq!(RIGHT, (0, 1));
    assert_eq!(DOWN, (1, 0));
    assert_eq!(UP, (usize::MAX, 0));
    assert_eq!(LEFT, (0, usize::MAX));
}

#[test]
fn steps_stop_at_the_edges() {
    assert_eq!((0usize, 0usize).up(3, 4), None);
    assert_eq!((0usize, 0usize).left(3, 4), None);
    assert_eq!((0usize, 0usize).right(3, 4), Some((0, 1)));
    assert_eq!((0usize, 0usize).down(3, 4), Some((1, 0)));
    assert_eq!((2usize, 3usize).down(3, 4), None);
    assert_eq!((2usize, 3usize).right(3, 4), None);
    assert_eq!((2usize, 3usize).up(3, 4), Some((1, 3)));
    assert_eq!((2usize, 3usize).left(3, 4), Some((2, 2)));
    assert_eq!((1usize, 1usize).dir(3, 4, (1, 1)), Some((2, 2)));
    assert_eq!((5usize, 1usize).dir(3, 4, RIGHT), None);
    assert_eq!((usize::MAX, 1usize).dir(3, 4, DOWN), Some((0, 1)));
}

#[test]
fn neighbours_are_listed_right_up_left_down() {
    assert_eq!(
        (1usize, 1usize).adj(3, 3),
        vec![(1, 2), (0, 1), (1, 0), (2, 1)]
    );
    assert_eq!((0usize, 0usize).adj(3, 3), vec![(0, 1), (1, 0)]);
    assert_eq!((2usize, 2usize).adj(3, 3), vec![(1, 2), (2, 1)]);
    assert_eq!((0usize, 0usize).adj(1, 1), vec![]);
}

#[test]
fn rays_run_to_the_edge() {
    assert_eq!(
        (1usize, 1usize).while_dir(3, 5, RIGHT),
        vec![(1, 2), (1, 3), (1, 4)]
    );
    assert_eq!((1usize, 1usize).while_dir(3, 5, LEFT), vec![(1, 0)]);
    assert_eq!((1usize, 1usize).while_dir(3, 5, UP), vec![(0, 1)]);
    assert_eq!((1usize, 1usize).while_dir(3, 5, DOWN), vec![(2, 1)]);
    assert_eq!((0usize, 4usize).while_dir(3, 5, RIGHT), vec![]);
    assert_eq!((0usize, 4usize).while_dir(3, 5, UP), vec![]);
    assert_eq!(
        (0usize, 4usize).while_dir(3, 5, LEFT),
        vec![(0, 3), (0, 2), (0, 1), (0, 0)]
    );
    // from outside the grid a ray is empty unless its first step enters the grid
    assert_eq!((7usize, 7usize).while_dir(3, 5, LEFT), vec![]);
    assert_eq!(
        (0usize, 5usize).while_dir(3, 5, LEFT),
        vec![(0, 4), (0, 3), (0, 2), (0, 1), (0, 0)]
    );
}

#[test]
fn text_is_cut_at_white_space() {
    assert_eq!(chars_of("a#é"), vec!['a', '#', 'é']);
    assert_eq!(chars_of(""), Vec::<char>::new());
    let words = split_whitespace(&chars_of(" ab\t c\r\n\x0Cd "));
    assert_eq!(words, vec![vec!['a', 'b'], vec!['c'], vec!['d']]);
    assert_eq!(split_whitespace(&chars_of(" \n ")), Vec::<Vec<char>>::new());
    assert_eq!(split_whitespace(&chars_of("x")), vec![vec!['x']]);
    // only ASCII white space separates
    assert_eq!(
        split_whitespace(&chars_of("a\u{a0}b")),
        vec![vec!['a', '\u{a0}', 'b']]
    );
}

#[test]
fn progress_counts_up_to_the_total() {
    let mut bar = ProgressBar::new(3);
    assert_eq!((bar.current(), bar.total(), bar.width()), (0, 3, 40));
    bar.tick();
    assert_eq!(bar.current(), 1);
    bar.tick();
    bar.tick();
    bar.tick();
    assert_eq!(bar.current(), 3);
    let mut bar = ProgressBar::new(5);
    bar.tick();
    bar.finish();
    assert_eq!(bar.current(), 5);
    let mut empty = ProgressBar::new(0);
    empty.tick();
    empty.finish();
    assert_eq!((empty.current(), empty.total()), (0, 0));
}

#[test]
fn cells_close_to_lights() {
    let mut cell = Cell::Fillable;
    assert!(cell.can_put_akari());
    cell.disable();
    assert_eq!(cell, Cell::Unfillable(false));
    assert!(!cell.can_put_akari());
    let mut lit = Cell::Unfillable(true);
    lit.disable();
    assert_eq!(lit, Cell::Unfillable(true));
    let mut wall = Cell::Nil;
    wall.disable();
    assert_eq!(wall, Cell::Nil);
    assert!(!wall.can_put_akari());
}
