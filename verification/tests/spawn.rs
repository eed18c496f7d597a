use game2048::{empty_cells, place_tile, spawn_tile, Grid, TileState};

fn grid(rows: [[u32; 4]; 4]) -> Grid {
    let rows: Vec<Vec<TileState>> = rows
        .iter()
        .map(|row| {
            row.iter()
                .map(|v| if *v == 0 { TileState::Empty } else { TileState::Value(*v) })
                .collect()
        })
        .collect();
    Grid::from_rows(rows).expect("a valid board")
}

/// The cells in which the two boards differ.
fn differences(a: &Grid, b: &Grid) -> Vec<(usize, usize)> {
    let mut cells = Vec::new();
    for r in 0..4 {
        for c in 0..4 {
            if a.get(r, c) != b.get(r, c) {
                cells.push((r, c));
            }
        }
    }
    cells
}

#[test]
fn empty_cells_are_listed_row_by_row() {
    let g = grid([[2, 0, 4, 0], [0, 8, 8, 8], [2, 2, 2, 2], [0, 0, 0, 4]]);
    assert_eq!(empty_cells(&g), vec![(0, 1), (0, 3), (1, 0), (3, 0), (3, 1), (3, 2)]);
    assert_eq!(empty_cells(&Grid::new()).len(), 16);
    assert_eq!(empty_cells(&Grid::new())[0], (0, 0));
    assert_eq!(empty_cells(&Grid::new())[5], (1, 1));
    assert_eq!(empty_cells(&Grid::new())[15], (3, 3));
    let full = grid([[2, 4, 2, 4], [4, 2, 4, 2], [2, 4, 2, 4], [4, 2, 4, 2]]);
    assert_eq!(empty_cells(&full), Vec::new());
}

#[test]
fn place_tile_puts_a_two_or_a_four() {
    let g = grid([[2, 0, 4, 0], [0, 8, 8, 8], [2, 2, 2, 2], [0, 0, 0, 4]]);
    assert_eq!(
        place_tile(&g, (0, 1), true),
        grid([[2, 2, 4, 0], [0, 8, 8, 8], [2, 2, 2, 2], [0, 0, 0, 4]])
    );
    assert_eq!(
        place_tile(&g, (3, 2), false),
        grid([[2, 0, 4, 0], [0, 8, 8, 8], [2, 2, 2, 2], [0, 0, 4, 4]])
    );
    // the board that was given stays as it was
    assert_eq!(g, grid([[2, 0, 4, 0], [0, 8, 8, 8], [2, 2, 2, 2], [0, 0, 0, 4]]));
}

#[test]
fn a_full_board_gets_no_tile() {
    let full = grid([[2, 4, 2, 4], [4, 2, 4, 2], [2, 4, 2, 4], [4, 2, 4, 2]]);
    assert_eq!(spawn_tile(&full), None);
    let mergeable = grid([[2, 2, 2, 2], [2, 2, 2, 2], [2, 2, 2, 2], [2, 2, 2, 2]]);
    assert_eq!(spawn_tile(&mergeable), None);
}

#[test]
fn the_only_empty_cell_gets_the_tile() {
    for r in 0..4 {
        for c in 0..4 {
            let mut g = grid([[2, 4, 2, 4], [4, 2, 4, 2], [2, 4, 2, 4], [4, 2, 4, 2]]);
            g.set(r, c, TileState::Empty);
            let after = spawn_tile(&g).expect("one cell is empty");
            assert_eq!(differences(&g, &after), vec![(r, c)]);
            let tile = after.get(r, c);
            assert!(tile == TileState::Value(2) || tile == TileState::Value(4));
        }
    }
}

#[test]
fn a_spawn_changes_one_empty_cell_and_no_other() {
    let g = grid([[2, 0, 4, 0], [0, 8, 8, 8], [2, 2, 2, 2], [0, 0, 0, 4]]);
    for _ in 0..200 {
        let after = spawn_tile(&g).expect("some cells are empty");
        let changed = differences(&g, &after);
        assert_eq!(changed.len(), 1);
        let (r, c) = changed[0];
        assert_eq!(g.get(r, c), TileState::Empty);
        let tile = after.get(r, c);
        assert!(tile == TileState::Value(2) || tile == TileState::Value(4));
    }
}

#[test]
fn every_empty_cell_is_reached() {
    let g = grid([[2, 0, 4, 0], [0, 8, 8, 8], [2, 2, 2, 2], [0, 0, 0, 4]]);
    let mut seen = Vec::new();
    for _ in 0..2000 {
        let after = spawn_tile(&g).expect("some cells are empty");
        let cell = differences(&g, &after)[0];
        if !seen.contains(&cell) {
            seen.push(cell);
        }
    }
    seen.sort();
    assert_eq!(seen, empty_cells(&g));
}

#[test]
fn about_seven_in_ten_new_tiles_are_twos() {
    let g = Grid::new();
    let trials = 20000;
    let mut twos = 0;
    let mut fours = 0;
    for _ in 0..trials {
        let after = spawn_tile(&g).expect("the board is empty");
        let (r, c) = differences(&g, &after)[0];
        match after.get(r, c) {
            TileState::Value(2) => twos += 1,
            TileState::Value(4) => fours += 1,
            other => panic!("a new tile of {:?}", other),
        }
    }
    assert_eq!(twos + fours, trials);
    let share = twos as f64 / trials as f64;
    assert!(share > 0.65 && share < 0.75, "share of twos: {}", share);
}
