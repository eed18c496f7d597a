//! New tiles.

use rand::seq::SliceRandom;
use rand::Rng;
use vstd::prelude::*;

use crate::grid::{Board, Grid, BOARD_LENGTH};
use crate::terminal::full;
use crate::tile::{lemma_new_tile_values, TileState};

verus! {

/// The board with the value `v` in the cell in row `r` and column `c`.
pub open spec fn with_tile(g: Board, r: int, c: int, v: nat) -> Board {
    g.update(r, g[r].update(c, Some(v)))
}

/// `after` is `before` with one new tile, of value 2 or 4, in a cell that
/// was empty.
pub open spec fn spawned(before: Board, after: Board) -> bool {
    exists|r: int, c: int, v: nat|
        {
            &&& 0 <= r < BOARD_LENGTH
            &&& 0 <= c < BOARD_LENGTH
            &&& before[r][c] is None
            &&& v == 2 || v == 4
            &&& after == #[trigger] with_tile(before, r, c, v)
        }
}

/// Where in the order of reading, row by row, the cell stands.
pub open spec fn reading_order(cell: (usize, usize)) -> int {
    cell.0 * BOARD_LENGTH + cell.1
}

/// The empty cells of the board as (row, column), in the order of reading.
pub fn empty_cells(board: &Grid) -> (cells: Vec<(usize, usize)>)
    ensures
        forall|i: int|
            0 <= i < cells@.len() ==> {
                let (r, c) = #[trigger] cells@[i];
                r < BOARD_LENGTH && c < BOARD_LENGTH && board@[r as int][c as int] is None
            },
        forall|r: usize, c: usize|
            r < BOARD_LENGTH && c < BOARD_LENGTH && board@[r as int][c as int] is None
                ==> cells@.contains((r, c)),
        forall|i: int, j: int|
            0 <= i < j < cells@.len() ==> reading_order(cells@[i]) < reading_order(cells@[j]),
{
    let mut cells: Vec<(usize, usize)> = Vec::new();
    let mut r: usize = 0;
    while r < BOARD_LENGTH
        invariant
            r <= BOARD_LENGTH,
            forall|i: int|
                0 <= i < cells@.len() ==> {
                    let (a, b) = #[trigger] cells@[i];
                    a < r && b < BOARD_LENGTH && board@[a as int][b as int] is None
                },
            forall|a: usize, b: usize|
                a < r && b < BOARD_LENGTH && board@[a as int][b as int] is None ==> cells@.contains(
                    (a, b),
                ),
            forall|i: int, j: int|
                0 <= i < j < cells@.len() ==> reading_order(cells@[i]) < reading_order(cells@[j]),
        decreases BOARD_LENGTH - r,
    {
        let mut c: usize = 0;
        while c < BOARD_LENGTH
            invariant
                r < BOARD_LENGTH,
                c <= BOARD_LENGTH,
                forall|i: int|
                    0 <= i < cells@.len() ==> {
                        let (a, b) = #[trigger] cells@[i];
                        &&& a < r || (a == r && b < c)
                        &&& b < BOARD_LENGTH
                        &&& board@[a as int][b as int] is None
                    },
                forall|a: usize, b: usize|
                    (a < r || (a == r && b < c)) && b < BOARD_LENGTH
                        && board@[a as int][b as int] is None ==> cells@.contains((a, b)),
                forall|i: int, j: int|
                    0 <= i < j < cells@.len() ==> reading_order(cells@[i]) < reading_order(
                        cells@[j],
                    ),
            decreases BOARD_LENGTH - c,
        {
            match board.get(r, c) {
                TileState::Empty => {
                    let ghost before = cells@;
                    cells.push((r, c));
                    proof {
                        assert(cells@[before.len() as int] == (r, c));
                        assert forall|a: usize, b: usize|
                            (a < r || (a == r && b < c + 1)) && b < BOARD_LENGTH
                                && board@[a as int][b as int] is None implies cells@.contains(
                            (a, b),
                        ) by {
                            if a == r && b == c {
                            } else {
                                assert(before.contains((a, b)));
                                let i = choose|i: int| 0 <= i < before.len() && before[i] == (a, b);
                                assert(cells@[i] == (a, b));
                            }
                        }
                    }
                },
                TileState::Value(_) => {},
            }
            c = c + 1;
        }
        r = r + 1;
    }
    cells
}

/// One of the cells, picked by `choose` of `rand::seq::SliceRandom` with the
/// generator of the current thread. The contract claims what `choose` shows
/// for slices: `None` for an empty slice and for no other, else one of the
/// slice's items. Which item comes is left open.
#[verifier::external_body]
fn choose_cell(cells: &Vec<(usize, usize)>) -> (pick: Option<(usize, usize)>)
    ensures
        pick is None <==> cells@.len() == 0,
        pick matches Some(cell) ==> cells@.contains(cell),
{
    cells.choose(&mut rand::thread_rng()).copied()
}

/// A coin that shows `true` with the chance `numerator` in `denominator`,
/// thrown by `gen_ratio` of `rand::Rng` with the generator of the current
/// thread. `gen_ratio` panics on a zero denominator and on a numerator above
/// the denominator, which the contract leaves out. Nothing is claimed of the
/// result.
#[verifier::external_body]
fn random_ratio(numerator: u32, denominator: u32) -> (heads: bool)
    requires
        0 < denominator,
        numerator <= denominator,
{
    rand::thread_rng().gen_ratio(numerator, denominator)
}

/// The board with a new tile in the given cell, which is empty: of value 2
/// where `two` holds, else of value 4.
pub fn place_tile(board: &Grid, cell: (usize, usize), two: bool) -> (out: Grid)
    requires
        cell.0 < BOARD_LENGTH,
        cell.1 < BOARD_LENGTH,
        board@[cell.0 as int][cell.1 as int] is None,
    ensures
        out@ == with_tile(board@, cell.0 as int, cell.1 as int, if two { 2 } else { 4 }),
        spawned(board@, out@),
{
    let value: u32 = if two { 2 } else { 4 };
    let mut out = board.clone();
    proof {
        lemma_new_tile_values();
    }
    out.set(cell.0, cell.1, TileState::Value(value));
    assert(out@ == with_tile(board@, cell.0 as int, cell.1 as int, value as nat));
    out
}

/// Puts one new tile on the board: into an empty cell picked at random, each
/// with the same chance, and of value 2 with a chance of 7 in 10, else 4.
/// `None` where the board has no empty cell.
pub fn spawn_tile(board: &Grid) -> (out: Option<Grid>)
    ensures
        out is None <==> full(board@),
        out matches Some(g) ==> spawned(board@, g@),
{
    let cells = empty_cells(board);
    proof {
        if cells@.len() > 0 {
            let (r, c) = cells@[0];
            assert(board@[r as int][c as int] is None);
        }
        if !full(board@) {
            let (r, c) = choose|r: int, c: int|
                0 <= r < BOARD_LENGTH && 0 <= c < BOARD_LENGTH && !(board@[r][c] is Some);
            assert(cells@.contains((r as usize, c as usize)));
        }
    }
    match choose_cell(&cells) {
        Some(cell) => {
            let two = random_ratio(7, 10);
            Some(place_tile(board, cell, two))
        },
        None => None,
    }
}

} // verus!
