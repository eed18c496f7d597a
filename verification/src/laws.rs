//! What holds of the moves on every board.

use vstd::prelude::*;

use crate::engine::{
    gain, gain_upto, lane, lane_cell, lemma_lane_of_moved, lemma_moved_by_lanes, merge_count,
    merges_upto, moved, tile_count, tiles_upto, Arrow,
};
use crate::grid::{empty_board, square, Board, BOARD_LENGTH};
use crate::line::{compact, full_line, mergeable, slid, slid_times, tiles};
use crate::line_lemmas::{
    lemma_fixed_line, lemma_full_line_fixed, lemma_line_settles, lemma_merged_len,
    lemma_mergeable_reverse, lemma_score_even, lemma_tiles_from,
};
use crate::spawn::{spawned, with_tile};
use crate::terminal::{full, terminal};
use crate::tile::Cell;

verus! {

/// The board after `n` moves in direction `d`.
pub open spec fn repeated(g: Board, d: Arrow, n: nat) -> Board
    decreases n,
{
    if n == 0 {
        g
    } else {
        repeated(moved(g, d), d, (n - 1) as nat)
    }
}

/// The lanes of the board after `n` moves are the lanes of the board, each
/// after `n` moves of its own.
proof fn lemma_lanes_of_repeated(g: Board, d: Arrow, n: nat, k: int)
    requires
        square(g),
        0 <= k < BOARD_LENGTH,
    ensures
        square(repeated(g, d, n)),
        lane(repeated(g, d, n), d, k) == slid_times(lane(g, d, k), n),
    decreases n,
{
    if n > 0 {
        lemma_lane_of_moved(g, d, k);
        lemma_lanes_of_repeated(moved(g, d), d, (n - 1) as nat, k);
    }
}

/// Moves in one direction come to rest: after one move less than the board
/// is long, or more, a further move in that direction changes nothing.
pub proof fn lemma_repeated_move_settles(g: Board, d: Arrow, n: nat)
    requires
        square(g),
        n + 1 >= BOARD_LENGTH,
    ensures
        moved(repeated(g, d, n), d) == repeated(g, d, n),
{
    let h = repeated(g, d, n);
    assert forall|k: int| 0 <= k < BOARD_LENGTH implies slid(#[trigger] lane(h, d, k)) == lane(
        h,
        d,
        k,
    ) by {
        lemma_lanes_of_repeated(g, d, n, k);
        lemma_line_settles(lane(g, d, k), n);
    }
    lemma_lanes_of_repeated(g, d, n, 0);
    lemma_moved_by_lanes(h, d);
}

/// One for a tile, nothing for an empty cell.
spec fn one_if_tile(c: Cell) -> nat {
    if c is Some {
        1
    } else {
        0
    }
}

/// The tiles of a lane, counted cell by cell.
proof fn lemma_count_line(a: Seq<Cell>)
    requires
        a.len() == BOARD_LENGTH,
    ensures
        tiles(a).len() == one_if_tile(a[0]) + one_if_tile(a[1]) + one_if_tile(a[2]) + one_if_tile(
            a[3],
        ),
{
    lemma_tiles_from(a, 0);
    lemma_tiles_from(a, 1);
    lemma_tiles_from(a, 2);
    lemma_tiles_from(a, 3);
    assert(a.skip(0) =~= a);
    assert(a.skip(4) =~= Seq::<Cell>::empty());
}

/// The tiles of the board can be counted along the lanes of any direction.
proof fn lemma_count_by_lanes(g: Board, d: Arrow)
    requires
        square(g),
    ensures
        tiles_upto(g, d, BOARD_LENGTH as nat) == tile_count(g),
{
    reveal_with_fuel(tiles_upto, 5);
    lemma_count_line(lane(g, d, 0));
    lemma_count_line(lane(g, d, 1));
    lemma_count_line(lane(g, d, 2));
    lemma_count_line(lane(g, d, 3));
    lemma_count_line(lane(g, Arrow::Left, 0));
    lemma_count_line(lane(g, Arrow::Left, 1));
    lemma_count_line(lane(g, Arrow::Left, 2));
    lemma_count_line(lane(g, Arrow::Left, 3));
}

/// On the first `n` lanes, the tiles after a move and the merges of the move
/// make up the tiles before it.
proof fn lemma_move_takes_tiles_upto(g: Board, d: Arrow, n: nat)
    requires
        n <= BOARD_LENGTH,
    ensures
        tiles_upto(moved(g, d), d, n) + merges_upto(g, d, n) == tiles_upto(g, d, n),
    decreases n,
{
    if n > 0 {
        lemma_move_takes_tiles_upto(g, d, (n - 1) as nat);
        let l = lane(g, d, n - 1);
        lemma_lane_of_moved(g, d, n - 1);
        lemma_fixed_line(l);
        lemma_merged_len(tiles(l));
    }
}

/// A move never adds a tile: each merge takes one tile from the board, and
/// a move without a merge keeps their number.
pub proof fn lemma_move_takes_tiles(g: Board, d: Arrow)
    requires
        square(g),
    ensures
        tile_count(moved(g, d)) + merge_count(g, d) == tile_count(g),
{
    lemma_move_takes_tiles_upto(g, d, BOARD_LENGTH as nat);
    lemma_count_by_lanes(g, d);
    lemma_lane_of_moved(g, d, 0);
    lemma_count_by_lanes(moved(g, d), d);
}

/// A new tile makes one tile more on the board, and leaves the others where
/// they are.
pub proof fn lemma_spawn_adds_one_tile(before: Board, after: Board)
    requires
        square(before),
        spawned(before, after),
    ensures
        tile_count(after) == tile_count(before) + 1,
        forall|r: int, c: int|
            0 <= r < BOARD_LENGTH && 0 <= c < BOARD_LENGTH && before[r][c] is Some ==> after[r][c]
                == before[r][c],
{
    let (r, c, v) = choose|r: int, c: int, v: nat|
        {
            &&& 0 <= r < BOARD_LENGTH
            &&& 0 <= c < BOARD_LENGTH
            &&& before[r][c] is None
            &&& v == 2 || v == 4
            &&& after == #[trigger] with_tile(before, r, c, v)
        };
    reveal_with_fuel(tiles_upto, 5);
    lemma_count_line(lane(before, Arrow::Left, 0));
    lemma_count_line(lane(before, Arrow::Left, 1));
    lemma_count_line(lane(before, Arrow::Left, 2));
    lemma_count_line(lane(before, Arrow::Left, 3));
    lemma_count_line(lane(after, Arrow::Left, 0));
    lemma_count_line(lane(after, Arrow::Left, 1));
    lemma_count_line(lane(after, Arrow::Left, 2));
    lemma_count_line(lane(after, Arrow::Left, 3));
}

/// A game starts with one tile on the board.
pub proof fn lemma_first_tile(g: Board)
    requires
        spawned(empty_board(), g),
    ensures
        tile_count(g) == 1,
{
    let blank = empty_board();
    lemma_spawn_adds_one_tile(blank, g);
    reveal_with_fuel(tiles_upto, 5);
    lemma_count_line(lane(blank, Arrow::Left, 0));
    lemma_count_line(lane(blank, Arrow::Left, 1));
    lemma_count_line(lane(blank, Arrow::Left, 2));
    lemma_count_line(lane(blank, Arrow::Left, 3));
}

/// The score that the first `n` lanes gain is even.
proof fn lemma_gain_upto_even(g: Board, d: Arrow, n: nat)
    ensures
        gain_upto(g, d, n) % 2 == 0,
    decreases n,
{
    if n > 0 {
        lemma_gain_upto_even(g, d, (n - 1) as nat);
        lemma_score_even(tiles(lane(g, d, n - 1)));
    }
}

/// The score that a move gains is even.
pub proof fn lemma_gain_even(g: Board, d: Arrow)
    ensures
        gain(g, d) % 2 == 0,
{
    lemma_gain_upto_even(g, d, BOARD_LENGTH as nat);
}

/// No cell of the board holds a tile.
pub open spec fn blank(g: Board) -> bool {
    forall|r: int, c: int| 0 <= r < BOARD_LENGTH && 0 <= c < BOARD_LENGTH ==> g[r][c] is None
}

/// The direction against `d`.
pub open spec fn opposite(d: Arrow) -> Arrow {
    match d {
        Arrow::Left => Arrow::Right,
        Arrow::Right => Arrow::Left,
        Arrow::Up => Arrow::Down,
        Arrow::Down => Arrow::Up,
    }
}

/// A lane of the opposite direction is the same lane read from its other
/// end.
proof fn lemma_opposite_lane(g: Board, d: Arrow, k: int)
    ensures
        lane(g, opposite(d), k).len() == lane(g, d, k).len(),
        forall|i: int|
            0 <= i < BOARD_LENGTH ==> lane(g, opposite(d), k)[i] == lane(g, d, k)[BOARD_LENGTH - 1
                - i],
{
}

/// A line that has no tile behind an empty cell, from whichever end it is
/// read, is all tiles or all empty.
proof fn lemma_compact_both_ways(a: Seq<Cell>, b: Seq<Cell>)
    requires
        a.len() == b.len(),
        forall|i: int| 0 <= i < a.len() ==> b[i] == a[a.len() - 1 - i],
        compact(a),
        compact(b),
    ensures
        full_line(a) || forall|i: int| 0 <= i < a.len() ==> a[i] is None,
{
    let n = a.len() as int;
    if !full_line(a) {
        let j = choose|j: int| 0 <= j < n && !((#[trigger] a[j]) is Some);
        assert forall|i: int| 0 <= i < n implies a[i] is None by {
            if i < j {
                assert(b[n - 1 - j] == a[n - 1 - (n - 1 - j)]);
                assert(b[n - 1 - j] is None);
                assert(b[n - 1 - i] is None);
                assert(b[n - 1 - i] == a[n - 1 - (n - 1 - i)]);
            }
        }
    }
}

/// On a board on which no move changes anything, each lane is all tiles or
/// all empty.
proof fn lemma_stuck_lanes(g: Board, d: Arrow, k: int)
    requires
        square(g),
        0 <= k < BOARD_LENGTH,
        moved(g, d) == g,
        moved(g, opposite(d)) == g,
    ensures
        full_line(lane(g, d, k)) || forall|i: int|
            0 <= i < BOARD_LENGTH ==> lane(g, d, k)[i] is None,
{
    lemma_moved_by_lanes(g, d);
    lemma_moved_by_lanes(g, opposite(d));
    let a = lane(g, d, k);
    let b = lane(g, opposite(d), k);
    assert(slid(a) == a);
    assert(slid(b) == b);
    lemma_fixed_line(a);
    lemma_fixed_line(b);
    lemma_opposite_lane(g, d, k);
    lemma_compact_both_ways(a, b);
}

/// A board with a tile on which no move changes anything has no empty cell.
proof fn lemma_stuck_is_full(g: Board)
    requires
        square(g),
        !blank(g),
        forall|d: Arrow| #[trigger] moved(g, d) == g,
    ensures
        full(g),
{
    let (r0, c0) = choose|r: int, c: int|
        0 <= r < BOARD_LENGTH && 0 <= c < BOARD_LENGTH && !(g[r][c] is None);
    assert(moved(g, Arrow::Left) == g);
    assert(moved(g, Arrow::Right) == g);
    assert(moved(g, Arrow::Up) == g);
    assert(moved(g, Arrow::Down) == g);
    // the row of the tile is all tiles
    lemma_stuck_lanes(g, Arrow::Left, r0);
    let row = lane(g, Arrow::Left, r0);
    assert(row[c0] == g[r0][c0]);
    assert(full_line(row));
    assert forall|r: int, c: int| 0 <= r < BOARD_LENGTH && 0 <= c < BOARD_LENGTH implies g[r][c]
        is Some by {
        // so each column has a tile, and is all tiles
        lemma_stuck_lanes(g, Arrow::Up, c);
        let column = lane(g, Arrow::Up, c);
        assert(row[c] is Some);
        assert(row[c] == g[r0][c]);
        assert(column[r0] == g[r0][c]);
        assert(full_line(column));
        assert(column[r] is Some);
        assert(column[r] == g[r][c]);
    }
}

/// On a board without an empty cell, each lane is without one.
proof fn lemma_full_lanes(g: Board, d: Arrow, k: int)
    requires
        full(g),
        0 <= k < BOARD_LENGTH,
    ensures
        full_line(lane(g, d, k)),
{
    let a = lane(g, d, k);
    assert forall|i: int| 0 <= i < a.len() implies (#[trigger] a[i]) is Some by {
        let (r, c) = lane_cell(d, k, i);
        assert(g[r][c] is Some);
    }
}

/// The test for the end of the game agrees with the moves: on a board that
/// holds a tile, nothing can be done exactly where no move in any of the
/// four directions changes the board. (The board without tiles is left
/// out: no move changes it, and it is not at an end.)
pub proof fn lemma_terminal_iff_stuck(g: Board)
    requires
        square(g),
        !blank(g),
    ensures
        terminal(g) <==> forall|d: Arrow| #[trigger] moved(g, d) == g,
{
    if terminal(g) {
        assert forall|d: Arrow| #[trigger] moved(g, d) == g by {
            assert forall|k: int| 0 <= k < BOARD_LENGTH implies slid(#[trigger] lane(g, d, k))
                == lane(g, d, k) by {
                let a = lane(g, d, k);
                lemma_full_lanes(g, d, k);
                lemma_full_line_fixed(a);
                match d {
                    Arrow::Left => {},
                    Arrow::Up => {},
                    Arrow::Right => {
                        lemma_opposite_lane(g, Arrow::Left, k);
                        lemma_mergeable_reverse(lane(g, Arrow::Left, k), a);
                    },
                    Arrow::Down => {
                        lemma_opposite_lane(g, Arrow::Up, k);
                        lemma_mergeable_reverse(lane(g, Arrow::Up, k), a);
                    },
                }
            }
            lemma_moved_by_lanes(g, d);
        }
    }
    if forall|d: Arrow| #[trigger] moved(g, d) == g {
        lemma_stuck_is_full(g);
        assert(moved(g, Arrow::Left) == g);
        assert(moved(g, Arrow::Up) == g);
        lemma_moved_by_lanes(g, Arrow::Left);
        lemma_moved_by_lanes(g, Arrow::Up);
        assert forall|k: int| 0 <= k < BOARD_LENGTH implies !mergeable(
            #[trigger] lane(g, Arrow::Left, k),
        ) by {
            lemma_full_lanes(g, Arrow::Left, k);
            lemma_full_line_fixed(lane(g, Arrow::Left, k));
        }
        assert forall|k: int| 0 <= k < BOARD_LENGTH implies !mergeable(
            #[trigger] lane(g, Arrow::Up, k),
        ) by {
            lemma_full_lanes(g, Arrow::Up, k);
            lemma_full_line_fixed(lane(g, Arrow::Up, k));
        }
    }
}

} // verus!
