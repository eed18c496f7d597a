//! The test for a board on which nothing can be done.

use vstd::prelude::*;

use crate::engine::{lane, read_lane, Arrow};
use crate::grid::{Board, Grid, BOARD_LENGTH};
use crate::line::{can_merge, mergeable};
use crate::tile::TileState;

verus! {

/// No cell of the board is empty.
pub open spec fn full(g: Board) -> bool {
    forall|r: int, c: int| 0 <= r < BOARD_LENGTH && 0 <= c < BOARD_LENGTH ==> g[r][c] is Some
}

/// Nothing can be done on the board: no cell is empty, and in no row and no
/// column does a tile equal the nearest tile behind it.
pub open spec fn terminal(g: Board) -> bool {
    &&& full(g)
    &&& forall|k: int| 0 <= k < BOARD_LENGTH ==> !mergeable(#[trigger] lane(g, Arrow::Left, k))
    &&& forall|k: int| 0 <= k < BOARD_LENGTH ==> !mergeable(#[trigger] lane(g, Arrow::Up, k))
}

/// Whether the board has an empty cell.
pub fn has_empty_cell(board: &Grid) -> (yes: bool)
    ensures
        yes == !full(board@),
{
    let mut r: usize = 0;
    while r < BOARD_LENGTH
        invariant
            r <= BOARD_LENGTH,
            forall|k: int, j: int| 0 <= k < r && 0 <= j < BOARD_LENGTH ==> board@[k][j] is Some,
        decreases BOARD_LENGTH - r,
    {
        let mut c: usize = 0;
        while c < BOARD_LENGTH
            invariant
                r < BOARD_LENGTH,
                c <= BOARD_LENGTH,
                forall|j: int| 0 <= j < c ==> board@[r as int][j] is Some,
            decreases BOARD_LENGTH - c,
        {
            match board.get(r, c) {
                TileState::Empty => {
                    return true;
                },
                TileState::Value(_) => {},
            }
            c = c + 1;
        }
        r = r + 1;
    }
    false
}

/// Whether the game on this board is over: no tile can move and none can
/// merge.
pub fn is_over(board: &Grid) -> (over: bool)
    ensures
        over == terminal(board@),
{
    if has_empty_cell(board) {
        return false;
    }
    let mut h: usize = 0;
    while h < BOARD_LENGTH
        invariant
            h <= BOARD_LENGTH,
            forall|k: int| 0 <= k < h ==> !mergeable(#[trigger] lane(board@, Arrow::Left, k)),
        decreases BOARD_LENGTH - h,
    {
        let row = read_lane(board, Arrow::Left, h);
        if can_merge(&row) {
            return false;
        }
        h = h + 1;
    }
    let mut w: usize = 0;
    while w < BOARD_LENGTH
        invariant
            w <= BOARD_LENGTH,
            forall|k: int| 0 <= k < w ==> !mergeable(#[trigger] lane(board@, Arrow::Up, k)),
        decreases BOARD_LENGTH - w,
    {
        let column = read_lane(board, Arrow::Up, w);
        if can_merge(&column) {
            return false;
        }
        w = w + 1;
    }
    true
}

} // verus!
