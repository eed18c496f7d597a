use game2048::{
    apply_move, gain_of_line, move_down, move_gain, move_left, move_right, move_up, slide_line,
    Arrow, Grid, Outcome, TileState,
};

fn tile(v: u32) -> TileState {
    if v == 0 {
        TileState::Empty
    } else {
        TileState::Value(v)
    }
}

fn grid(rows: [[u32; 4]; 4]) -> Grid {
    let rows: Vec<Vec<TileState>> =
        rows.iter().map(|row| row.iter().map(|v| tile(*v)).collect()).collect();
    Grid::from_rows(rows).expect("a valid board")
}

fn line(cells: &[u32]) -> Vec<TileState> {
    cells.iter().map(|v| tile(*v)).collect()
}

fn count(g: &Grid) -> usize {
    let mut n = 0;
    for r in 0..4 {
        for c in 0..4 {
            if g.get(r, c) != TileState::Empty {
                n += 1;
            }
        }
    }
    n
}

const ALL: [Arrow; 4] = [Arrow::Up, Arrow::Down, Arrow::Left, Arrow::Right];

#[test]
fn left_merges_two_pairs_in_a_row() {
    let before = grid([[2, 2, 4, 4], [0, 0, 0, 0], [0, 0, 0, 0], [0, 0, 0, 0]]);
    let after = grid([[4, 8, 0, 0], [0, 0, 0, 0], [0, 0, 0, 0], [0, 0, 0, 0]]);
    assert_eq!(apply_move(&before, Arrow::Left), Outcome::Changed(after, 12));
}

#[test]
fn right_merges_two_pairs_in_a_row() {
    let before = grid([[2, 2, 4, 4], [0, 0, 0, 0], [0, 0, 0, 0], [0, 0, 0, 0]]);
    let after = grid([[0, 0, 4, 8], [0, 0, 0, 0], [0, 0, 0, 0], [0, 0, 0, 0]]);
    assert_eq!(apply_move(&before, Arrow::Right), Outcome::Changed(after, 12));
}

#[test]
fn up_merges_and_closes_columns() {
    let before = grid([[2, 0, 4, 2], [2, 0, 4, 4], [4, 8, 0, 4], [4, 8, 2, 2]]);
    let after = grid([[4, 16, 8, 2], [8, 0, 2, 8], [0, 0, 0, 2], [0, 0, 0, 0]]);
    assert_eq!(apply_move(&before, Arrow::Up), Outcome::Changed(after, 4 + 8 + 16 + 8 + 8));
}

#[test]
fn down_merges_and_closes_columns() {
    let before = grid([[2, 0, 4, 2], [2, 0, 4, 4], [4, 8, 0, 4], [4, 8, 2, 2]]);
    let after = grid([[0, 0, 0, 0], [0, 0, 0, 2], [4, 0, 8, 8], [8, 16, 2, 2]]);
    assert_eq!(apply_move(&before, Arrow::Down), Outcome::Changed(after, 4 + 8 + 16 + 8 + 8));
}

#[test]
fn a_tile_merges_once_in_a_move() {
    let before = grid([[2, 2, 2, 2], [4, 4, 8, 0], [2, 2, 2, 0], [2, 2, 4, 0]]);
    let left = grid([[4, 4, 0, 0], [8, 8, 0, 0], [4, 2, 0, 0], [4, 4, 0, 0]]);
    assert_eq!(apply_move(&before, Arrow::Left), Outcome::Changed(left, 8 + 8 + 4 + 4));
    let right = grid([[0, 0, 4, 4], [0, 0, 8, 8], [0, 0, 2, 4], [0, 0, 4, 4]]);
    assert_eq!(apply_move(&before, Arrow::Right), Outcome::Changed(right, 8 + 8 + 4 + 4));
}

#[test]
fn tiles_merge_across_empty_cells() {
    let before = grid([[2, 0, 0, 2], [4, 0, 4, 8], [0, 2, 0, 2], [2, 0, 4, 2]]);
    let after = grid([[4, 0, 0, 0], [8, 8, 0, 0], [4, 0, 0, 0], [2, 4, 2, 0]]);
    assert_eq!(apply_move(&before, Arrow::Left), Outcome::Changed(after, 4 + 8 + 4));
}

#[test]
fn a_move_that_only_closes_up_scores_nothing() {
    let before = grid([[0, 2, 0, 4], [0, 0, 0, 0], [0, 0, 0, 8], [0, 0, 0, 0]]);
    let after = grid([[2, 4, 0, 0], [0, 0, 0, 0], [8, 0, 0, 0], [0, 0, 0, 0]]);
    assert_eq!(apply_move(&before, Arrow::Left), Outcome::Changed(after, 0));
}

#[test]
fn a_move_without_effect_is_unchanged() {
    let before = grid([[2, 4, 0, 0], [8, 0, 0, 0], [2, 4, 2, 4], [0, 0, 0, 0]]);
    assert_eq!(apply_move(&before, Arrow::Left), Outcome::Unchanged);
    assert_ne!(apply_move(&before, Arrow::Right), Outcome::Unchanged);
}

#[test]
fn the_empty_board_does_not_move() {
    let before = Grid::new();
    for d in ALL {
        assert_eq!(apply_move(&before, d), Outcome::Unchanged);
    }
}

#[test]
fn the_input_board_is_left_as_it_was() {
    let before = grid([[2, 2, 4, 4], [0, 0, 0, 0], [0, 0, 0, 0], [0, 0, 0, 0]]);
    let copy = before.clone();
    let _ = apply_move(&before, Arrow::Left);
    assert_eq!(before, copy);
}

#[test]
fn the_moves_by_name_agree_with_apply_move() {
    let before = grid([[2, 0, 4, 2], [2, 0, 4, 4], [4, 8, 0, 4], [4, 8, 2, 2]]);
    let as_option = |out: Outcome| match out {
        Outcome::Changed(g, s) => Some((g, s)),
        Outcome::Unchanged => None,
    };
    assert_eq!(move_up(&before), as_option(apply_move(&before, Arrow::Up)));
    assert_eq!(move_down(&before), as_option(apply_move(&before, Arrow::Down)));
    assert_eq!(move_left(&before), as_option(apply_move(&before, Arrow::Left)));
    assert_eq!(move_right(&before), as_option(apply_move(&before, Arrow::Right)));
    let stuck = grid([[2, 4, 2, 4], [4, 2, 4, 2], [2, 4, 2, 4], [4, 2, 4, 2]]);
    assert_eq!(move_up(&stuck), None);
    assert_eq!(move_down(&stuck), None);
    assert_eq!(move_left(&stuck), None);
    assert_eq!(move_right(&stuck), None);
}

#[test]
fn move_left_gives_board_and_score() {
    let before = grid([[2, 2, 4, 4], [0, 0, 0, 0], [0, 0, 0, 0], [0, 0, 0, 0]]);
    let after = grid([[4, 8, 0, 0], [0, 0, 0, 0], [0, 0, 0, 0], [0, 0, 0, 0]]);
    assert_eq!(move_left(&before), Some((after, 12)));
}

#[test]
fn move_gain_counts_what_the_move_scores() {
    let before = grid([[2, 0, 4, 2], [2, 0, 4, 4], [4, 8, 0, 4], [4, 8, 2, 2]]);
    assert_eq!(move_gain(&before, Arrow::Up), 44);
    assert_eq!(move_gain(&before, Arrow::Down), 44);
    assert_eq!(move_gain(&before, Arrow::Left), 8 + 4);
    assert_eq!(move_gain(&before, Arrow::Right), 8 + 4);
    assert_eq!(move_gain(&Grid::new(), Arrow::Left), 0);
}

#[test]
fn move_gain_does_not_overflow_where_the_move_would() {
    let big = 1u32 << 31;
    let before = grid([[big, big, big, big]; 4]);
    assert_eq!(move_gain(&before, Arrow::Left), 8 * (1u64 << 32));
}

#[test]
fn large_tiles_merge_up_to_the_limit() {
    let half = 1u32 << 30;
    let before = grid([[half, half, 0, 0], [0, 0, 0, 0], [0, 0, 0, 0], [0, 0, 0, 0]]);
    let after = grid([[1 << 31, 0, 0, 0], [0, 0, 0, 0], [0, 0, 0, 0], [0, 0, 0, 0]]);
    assert_eq!(apply_move(&before, Arrow::Left), Outcome::Changed(after, 1 << 31));
}

#[test]
fn repeated_moves_come_to_rest() {
    let start = grid([[2, 2, 4, 8], [2, 2, 2, 2], [0, 2, 0, 2], [4, 4, 4, 4]]);
    for d in ALL {
        let mut board = start.clone();
        let mut changes = 0;
        loop {
            match apply_move(&board, d) {
                Outcome::Changed(next, _) => {
                    board = next;
                    changes += 1;
                }
                Outcome::Unchanged => break,
            }
        }
        assert!(changes <= 3);
        assert_eq!(apply_move(&board, d), Outcome::Unchanged);
    }
    let row = grid([[2, 2, 4, 8], [0, 0, 0, 0], [0, 0, 0, 0], [0, 0, 0, 0]]);
    let once = grid([[4, 4, 8, 0], [0, 0, 0, 0], [0, 0, 0, 0], [0, 0, 0, 0]]);
    let twice = grid([[8, 8, 0, 0], [0, 0, 0, 0], [0, 0, 0, 0], [0, 0, 0, 0]]);
    let thrice = grid([[16, 0, 0, 0], [0, 0, 0, 0], [0, 0, 0, 0], [0, 0, 0, 0]]);
    assert_eq!(apply_move(&row, Arrow::Left), Outcome::Changed(once.clone(), 4));
    assert_eq!(apply_move(&once, Arrow::Left), Outcome::Changed(twice.clone(), 8));
    assert_eq!(apply_move(&twice, Arrow::Left), Outcome::Changed(thrice.clone(), 16));
    assert_eq!(apply_move(&thrice, Arrow::Left), Outcome::Unchanged);
}

#[test]
fn a_move_never_adds_a_tile() {
    let merging = grid([[2, 2, 4, 4], [2, 0, 2, 0], [8, 4, 2, 0], [0, 0, 0, 0]]);
    match apply_move(&merging, Arrow::Left) {
        Outcome::Changed(after, _) => assert_eq!(count(&after), count(&merging) - 3),
        Outcome::Unchanged => panic!("the move merges"),
    }
    let closing = grid([[0, 2, 0, 4], [0, 0, 0, 0], [0, 0, 0, 8], [0, 0, 0, 0]]);
    match apply_move(&closing, Arrow::Left) {
        Outcome::Changed(after, _) => assert_eq!(count(&after), count(&closing)),
        Outcome::Unchanged => panic!("the move closes gaps"),
    }
}

#[test]
fn the_score_of_a_move_is_even() {
    let boards = [
        grid([[2, 2, 4, 4], [2, 0, 2, 0], [8, 4, 2, 0], [0, 0, 0, 0]]),
        grid([[2, 0, 4, 2], [2, 0, 4, 4], [4, 8, 0, 4], [4, 8, 2, 2]]),
        grid([[2, 2, 2, 2], [4, 4, 8, 0], [2, 2, 2, 0], [2, 2, 4, 0]]),
    ];
    for board in boards.iter() {
        for d in ALL {
            if let Outcome::Changed(_, s) = apply_move(board, d) {
                assert_eq!(s % 2, 0);
            }
        }
    }
}

#[test]
fn a_changed_board_has_an_empty_cell() {
    let before = grid([[2, 2, 4, 8], [4, 8, 16, 32], [2, 4, 8, 16], [4, 8, 16, 32]]);
    match apply_move(&before, Arrow::Left) {
        Outcome::Changed(after, s) => {
            assert_eq!(s, 4);
            assert_eq!(after.get(0, 3), TileState::Empty);
            assert_eq!(count(&after), 15);
        }
        Outcome::Unchanged => panic!("the first row merges"),
    }
}

#[test]
fn slide_line_merges_then_closes_up() {
    let mut cells = line(&[2, 2, 4, 4]);
    assert_eq!(slide_line(&mut cells), (12, true));
    assert_eq!(cells, line(&[4, 8, 0, 0]));

    let mut cells = line(&[0, 2, 0, 2]);
    assert_eq!(slide_line(&mut cells), (4, true));
    assert_eq!(cells, line(&[4, 0, 0, 0]));

    let mut cells = line(&[0, 0, 0, 2]);
    assert_eq!(slide_line(&mut cells), (0, true));
    assert_eq!(cells, line(&[2, 0, 0, 0]));

    let mut cells = line(&[2, 4, 2, 0]);
    assert_eq!(slide_line(&mut cells), (0, false));
    assert_eq!(cells, line(&[2, 4, 2, 0]));
}

#[test]
fn slide_line_takes_lines_of_any_length() {
    let mut cells = line(&[]);
    assert_eq!(slide_line(&mut cells), (0, false));
    assert_eq!(cells, line(&[]));

    let mut cells = line(&[8]);
    assert_eq!(slide_line(&mut cells), (0, false));
    assert_eq!(cells, line(&[8]));

    let mut cells = line(&[2, 0, 2, 4, 4, 0, 8, 8, 8]);
    assert_eq!(slide_line(&mut cells), (4 + 8 + 16, true));
    assert_eq!(cells, line(&[4, 8, 16, 8, 0, 0, 0, 0, 0]));
}

#[test]
fn gain_of_line_counts_without_moving() {
    assert_eq!(gain_of_line(&line(&[])), 0);
    assert_eq!(gain_of_line(&line(&[2])), 0);
    assert_eq!(gain_of_line(&line(&[2, 4, 2, 4])), 0);
    assert_eq!(gain_of_line(&line(&[2, 2, 4, 4])), 12);
    assert_eq!(gain_of_line(&line(&[2, 2, 2, 0])), 4);
    assert_eq!(gain_of_line(&line(&[0, 2, 0, 2])), 4);
    assert_eq!(gain_of_line(&line(&[4, 2, 2, 4])), 4);
    assert_eq!(gain_of_line(&line(&[2, 0, 2, 4, 4, 0, 8, 8, 8])), 4 + 8 + 16);
    let big = 1u32 << 31;
    assert_eq!(gain_of_line(&line(&[big, big, big, big])), 1u64 << 33);
    let cells = line(&[2, 0, 2, 4, 4, 0, 8, 8, 8]);
    let mut slid = cells.clone();
    let (gained, _) = slide_line(&mut slid);
    assert_eq!(gain_of_line(&cells), gained as u64);
}
