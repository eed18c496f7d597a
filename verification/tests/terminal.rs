use game2048::{apply_move, has_empty_cell, is_over, Arrow, Grid, Outcome, TileState};

fn grid(rows: [[u32; 4]; 4]) -> Grid {
    let rows: Vec<Vec<TileState>> = rows
        .iter()
        .map(|row| {
            row.iter()
                .map(|v| if *v == 0 { TileState::Empty } else { TileState::Value(*v) })
                .collect()
        })
        .collect();
    Grid::from_rows(rows).expect("a valid board")
}

const ALL: [Arrow; 4] = [Arrow::Up, Arrow::Down, Arrow::Left, Arrow::Right];

fn stuck(g: &Grid) -> bool {
    ALL.iter().all(|d| apply_move(g, *d) == Outcome::Unchanged)
}

#[test]
fn a_full_board_without_equal_neighbours_is_over() {
    let g = grid([[2, 4, 2, 4], [4, 2, 4, 2], [2, 4, 2, 4], [4, 2, 4, 2]]);
    assert!(is_over(&g));
    for d in ALL {
        assert_eq!(apply_move(&g, d), Outcome::Unchanged);
    }
    let g = grid([[2, 4, 8, 16], [32, 64, 128, 256], [2, 4, 8, 16], [32, 64, 128, 256]]);
    assert!(is_over(&g));
    assert!(stuck(&g));
}

#[test]
fn a_board_with_an_empty_cell_is_not_over() {
    for r in 0..4 {
        for c in 0..4 {
            let mut g = grid([[2, 4, 2, 4], [4, 2, 4, 2], [2, 4, 2, 4], [4, 2, 4, 2]]);
            g.set(r, c, TileState::Empty);
            assert!(!is_over(&g));
            assert!(has_empty_cell(&g));
            assert!(!stuck(&g));
        }
    }
}

#[test]
fn the_empty_board_is_not_over_though_no_move_changes_it() {
    let g = Grid::new();
    assert!(!is_over(&g));
    assert!(stuck(&g));
}

#[test]
fn a_full_board_with_equal_neighbours_in_a_row_is_not_over() {
    let g = grid([[2, 4, 2, 4], [4, 2, 4, 2], [2, 4, 8, 8], [4, 2, 4, 2]]);
    assert!(!has_empty_cell(&g));
    assert!(!is_over(&g));
    assert_eq!(apply_move(&g, Arrow::Up), Outcome::Unchanged);
    assert_eq!(apply_move(&g, Arrow::Down), Outcome::Unchanged);
    assert_ne!(apply_move(&g, Arrow::Left), Outcome::Unchanged);
    assert_ne!(apply_move(&g, Arrow::Right), Outcome::Unchanged);
}

#[test]
fn a_full_board_with_equal_neighbours_in_a_column_is_not_over() {
    let g = grid([[2, 4, 2, 4], [4, 2, 4, 16], [2, 4, 2, 16], [4, 2, 4, 2]]);
    assert!(!has_empty_cell(&g));
    assert!(!is_over(&g));
    assert_eq!(apply_move(&g, Arrow::Left), Outcome::Unchanged);
    assert_eq!(apply_move(&g, Arrow::Right), Outcome::Unchanged);
    assert_ne!(apply_move(&g, Arrow::Up), Outcome::Unchanged);
    assert_ne!(apply_move(&g, Arrow::Down), Outcome::Unchanged);
}

#[test]
fn equal_neighbours_in_a_corner_are_found() {
    let g = grid([[2, 4, 2, 4], [4, 2, 4, 2], [2, 4, 2, 4], [4, 2, 8, 8]]);
    assert!(!is_over(&g));
    let g = grid([[2, 4, 2, 4], [4, 2, 4, 2], [2, 4, 2, 8], [4, 2, 4, 8]]);
    assert!(!is_over(&g));
    let g = grid([[2, 2, 8, 4], [4, 8, 4, 2], [2, 4, 2, 4], [4, 2, 4, 2]]);
    assert!(!is_over(&g));
    let g = grid([[2, 4, 2, 4], [2, 8, 4, 2], [4, 2, 8, 4], [8, 4, 2, 8]]);
    assert!(!is_over(&g));
}

#[test]
fn is_over_agrees_with_the_four_moves_on_many_boards() {
    // a fixed sequence of boards: some drawn cell by cell, some made from a
    // board at its end by changing a few cells, so that both answers come up
    let mut state: u64 = 0x2048_2048_2048_2048;
    let mut next = move || {
        state = state.wrapping_mul(6364136223846793005).wrapping_add(1442695040888963407);
        (state >> 33) as u32
    };
    let mut over = 0;
    let mut open = 0;
    for round in 0..4000 {
        let mut rows = [[0u32; 4]; 4];
        if round % 2 == 0 {
            for r in 0..4 {
                for c in 0..4 {
                    let pick = next();
                    rows[r][c] = if pick % 8 == 0 { 0 } else { 2 << (pick % 3) };
                }
            }
        } else {
            for r in 0..4 {
                for c in 0..4 {
                    rows[r][c] = if (r + c) % 2 == 0 { 2 } else { 4 };
                }
            }
            for _ in 0..(next() % 3) {
                let (r, c) = ((next() % 4) as usize, (next() % 4) as usize);
                let pick = next();
                rows[r][c] = if pick % 4 == 0 { 0 } else { 2 << (pick % 3) };
            }
        }
        let g = grid(rows);
        if g == Grid::new() {
            continue;
        }
        assert_eq!(is_over(&g), stuck(&g));
        if is_over(&g) {
            over += 1;
        } else {
            open += 1;
        }
    }
    assert!(over > 100);
    assert!(open > 100);
}
