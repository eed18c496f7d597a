//! The four moves.

use vstd::prelude::*;

use crate::grid::{rows_view, square, valid_board, Board, Grid, BOARD_LENGTH};
use crate::laws::{lemma_gain_even, lemma_move_takes_tiles};
use crate::line::{gain_of_line, line_gain, line_view, pairs, slid, slide_line, tiles};
use crate::line_lemmas::{lemma_changed_line_has_room, lemma_slid_valid};
use crate::tile::{valid_cell, Cell, TileState};

verus! {

/// The direction of a move.
#[derive(Clone, Copy, PartialEq, Eq, Debug, Structural)]
pub enum Arrow {
    Up,
    Down,
    Left,
    Right,
}

/// What a move did to a board.
#[derive(Debug, PartialEq)]
pub enum Outcome {
    /// The board after the move, and the score gained.
    Changed(Grid, u32),
    /// The move leaves the board as it is.
    Unchanged,
}

/// Row and column of the `i`-th cell of lane `k`. A lane is a line of the
/// board along the direction of the move, read from the edge that the tiles
/// move toward: a row for `Left` and `Right`, a column for `Up` and `Down`.
pub open spec fn lane_cell(d: Arrow, k: int, i: int) -> (int, int) {
    match d {
        Arrow::Left => (k, i),
        Arrow::Right => (k, BOARD_LENGTH - 1 - i),
        Arrow::Up => (i, k),
        Arrow::Down => (BOARD_LENGTH - 1 - i, k),
    }
}

/// The lane that the cell in row `r` and column `c` lies on, and where in
/// that lane.
pub open spec fn lane_through(d: Arrow, r: int, c: int) -> (int, int) {
    match d {
        Arrow::Left => (r, c),
        Arrow::Right => (r, BOARD_LENGTH - 1 - c),
        Arrow::Up => (c, r),
        Arrow::Down => (c, BOARD_LENGTH - 1 - r),
    }
}

/// Lane `k` of the board for a move in direction `d`.
pub open spec fn lane(g: Board, d: Arrow, k: int) -> Seq<Cell> {
    Seq::new(
        BOARD_LENGTH as nat,
        |i: int|
            {
                let (r, c) = lane_cell(d, k, i);
                g[r][c]
            },
    )
}

/// The board after a move in direction `d`: each lane slides toward its
/// front.
pub open spec fn moved(g: Board, d: Arrow) -> Board {
    Seq::new(
        BOARD_LENGTH as nat,
        |r: int|
            Seq::new(
                BOARD_LENGTH as nat,
                |c: int|
                    {
                        let (k, i) = lane_through(d, r, c);
                        slid(lane(g, d, k))[i]
                    },
            ),
    )
}

/// The score that the first `n` lanes gain in a move in direction `d`.
pub open spec fn gain_upto(g: Board, d: Arrow, n: nat) -> nat
    decreases n,
{
    if n == 0 {
        0
    } else {
        gain_upto(g, d, (n - 1) as nat) + line_gain(lane(g, d, n - 1))
    }
}

/// The score that a move in direction `d` gains: the sum of the values of
/// the tiles that its merges create.
pub open spec fn gain(g: Board, d: Arrow) -> nat {
    gain_upto(g, d, BOARD_LENGTH as nat)
}

/// The number of tiles on the first `n` lanes of the board.
pub open spec fn tiles_upto(g: Board, d: Arrow, n: nat) -> nat
    decreases n,
{
    if n == 0 {
        0
    } else {
        tiles_upto(g, d, (n - 1) as nat) + tiles(lane(g, d, n - 1)).len()
    }
}

/// The number of tiles on the board.
pub open spec fn tile_count(g: Board) -> nat {
    tiles_upto(g, Arrow::Left, BOARD_LENGTH as nat)
}

/// The number of merges on the first `n` lanes in a move in direction `d`.
pub open spec fn merges_upto(g: Board, d: Arrow, n: nat) -> nat
    decreases n,
{
    if n == 0 {
        0
    } else {
        merges_upto(g, d, (n - 1) as nat) + pairs(tiles(lane(g, d, n - 1)))
    }
}

/// The number of merges in a move in direction `d`.
pub open spec fn merge_count(g: Board, d: Arrow) -> nat {
    merges_upto(g, d, BOARD_LENGTH as nat)
}

/// The lanes before the `n`-th gain no more than all of them.
proof fn lemma_gain_upto_grows(g: Board, d: Arrow, m: nat, n: nat)
    requires
        m <= n,
    ensures
        gain_upto(g, d, m) <= gain_upto(g, d, n),
    decreases n - m,
{
    if m < n {
        lemma_gain_upto_grows(g, d, m, (n - 1) as nat);
    }
}

/// A move leaves a board as it is exactly where it leaves each lane as it is.
pub proof fn lemma_moved_by_lanes(g: Board, d: Arrow)
    requires
        square(g),
    ensures
        moved(g, d) == g <==> forall|k: int|
            0 <= k < BOARD_LENGTH ==> slid(#[trigger] lane(g, d, k)) == lane(g, d, k),
{
    let still = forall|k: int|
        0 <= k < BOARD_LENGTH ==> slid(#[trigger] lane(g, d, k)) == lane(g, d, k);
    if still {
        assert forall|r: int, c: int| 0 <= r < BOARD_LENGTH && 0 <= c < BOARD_LENGTH implies moved(
            g,
            d,
        )[r][c] == g[r][c] by {
            let (k, i) = lane_through(d, r, c);
            assert(slid(lane(g, d, k)) == lane(g, d, k));
            assert(lane_cell(d, k, i) == (r, c));
        }
        assert(moved(g, d) =~~= g);
    }
    if moved(g, d) == g {
        assert forall|k: int| 0 <= k < BOARD_LENGTH implies slid(#[trigger] lane(g, d, k)) == lane(
            g,
            d,
            k,
        ) by {
            let l = lane(g, d, k);
            assert forall|i: int| 0 <= i < BOARD_LENGTH implies slid(l)[i] == l[i] by {
                let (r, c) = lane_cell(d, k, i);
                assert(lane_through(d, r, c) == (k, i));
                assert(moved(g, d)[r][c] == slid(l)[i]);
            }
            assert(slid(l) =~= l);
        }
    }
}

/// The lanes of the board after a move are the lanes of the board before it,
/// each after its own move.
pub proof fn lemma_lane_of_moved(g: Board, d: Arrow, k: int)
    requires
        0 <= k < BOARD_LENGTH,
    ensures
        lane(moved(g, d), d, k) == slid(lane(g, d, k)),
        square(moved(g, d)),
{
    let l = lane(g, d, k);
    assert forall|i: int| 0 <= i < BOARD_LENGTH implies lane(moved(g, d), d, k)[i] == slid(l)[i] by {
        let (r, c) = lane_cell(d, k, i);
        assert(lane_through(d, r, c) == (k, i));
        assert(moved(g, d)[r][c] == slid(l)[i]);
    }
    assert(lane(moved(g, d), d, k) =~= slid(l));
}

/// A move that changes the board leaves an empty cell on it.
pub proof fn lemma_changed_leaves_room(g: Board, d: Arrow)
    requires
        square(g),
        moved(g, d) != g,
    ensures
        exists|r: int, c: int|
            0 <= r < BOARD_LENGTH && 0 <= c < BOARD_LENGTH && (#[trigger] moved(g, d)[r][c]) is None,
{
    lemma_moved_by_lanes(g, d);
    let k = choose|k: int| 0 <= k < BOARD_LENGTH && slid(#[trigger] lane(g, d, k)) != lane(g, d, k);
    let l = lane(g, d, k);
    lemma_changed_line_has_room(l);
    let (r, c) = lane_cell(d, k, BOARD_LENGTH - 1);
    assert(lane_through(d, r, c) == (k, BOARD_LENGTH - 1));
    assert(moved(g, d)[r][c] == slid(l)[BOARD_LENGTH - 1]);
}

/// A move keeps a board valid.
pub proof fn lemma_moved_valid(g: Board, d: Arrow)
    requires
        valid_board(g),
    ensures
        valid_board(moved(g, d)),
{
    let h = moved(g, d);
    assert forall|r: int, c: int|
        0 <= r < BOARD_LENGTH && 0 <= c < BOARD_LENGTH implies valid_cell(
        #[trigger] h[r][c],
    ) by {
        let (k, i) = lane_through(d, r, c);
        let l = lane(g, d, k);
        assert forall|j: int| 0 <= j < l.len() implies valid_cell(#[trigger] l[j]) by {
            let (rr, cc) = lane_cell(d, k, j);
            assert(valid_cell(g[rr][cc]));
        }
        lemma_slid_valid(l);
        assert(valid_cell(slid(l)[i]));
    }
}

/// Row and column of the `i`-th cell of lane `k`.
fn cell_of_lane(d: Arrow, k: usize, i: usize) -> (pos: (usize, usize))
    requires
        k < BOARD_LENGTH,
        i < BOARD_LENGTH,
    ensures
        (pos.0 as int, pos.1 as int) == lane_cell(d, k as int, i as int),
        pos.0 < BOARD_LENGTH,
        pos.1 < BOARD_LENGTH,
{
    match d {
        Arrow::Left => (k, i),
        Arrow::Right => (k, BOARD_LENGTH - 1 - i),
        Arrow::Up => (i, k),
        Arrow::Down => (BOARD_LENGTH - 1 - i, k),
    }
}

/// The lane through the cell in row `r` and column `c`, and where in that
/// lane the cell lies.
fn lane_of_cell(d: Arrow, r: usize, c: usize) -> (pos: (usize, usize))
    requires
        r < BOARD_LENGTH,
        c < BOARD_LENGTH,
    ensures
        (pos.0 as int, pos.1 as int) == lane_through(d, r as int, c as int),
        pos.0 < BOARD_LENGTH,
        pos.1 < BOARD_LENGTH,
{
    match d {
        Arrow::Left => (r, c),
        Arrow::Right => (r, BOARD_LENGTH - 1 - c),
        Arrow::Up => (c, r),
        Arrow::Down => (c, BOARD_LENGTH - 1 - r),
    }
}

/// Lane `k` of the board, read from the edge that the tiles move toward.
pub(crate) fn read_lane(board: &Grid, d: Arrow, k: usize) -> (line: Vec<TileState>)
    requires
        k < BOARD_LENGTH,
    ensures
        line@.len() == BOARD_LENGTH,
        line_view(line@) == lane(board@, d, k as int),
{
    let mut line: Vec<TileState> = Vec::new();
    let mut i: usize = 0;
    while i < BOARD_LENGTH
        invariant
            k < BOARD_LENGTH,
            i <= BOARD_LENGTH,
            line@.len() == i,
            forall|j: int| 0 <= j < i ==> (#[trigger] line@[j])@ == lane(board@, d, k as int)[j],
        decreases BOARD_LENGTH - i,
    {
        let (r, c) = cell_of_lane(d, k, i);
        line.push(board.get(r, c));
        i = i + 1;
    }
    assert(line_view(line@) =~= lane(board@, d, k as int));
    line
}

/// Moves the tiles of the board in the given direction. In each lane, equal
/// neighbours merge first, each tile at most once, and then the tiles close
/// up toward the edge.
pub fn apply_move(board: &Grid, direction: Arrow) -> (out: Outcome)
    requires
        gain(board@, direction) <= u32::MAX,
    ensures
        match out {
            Outcome::Unchanged => moved(board@, direction) == board@,
            Outcome::Changed(g, s) => {
                &&& g@ == moved(board@, direction)
                &&& g@ != board@
                &&& s == gain(board@, direction)
                &&& s % 2 == 0
                &&& tile_count(g@) + merge_count(board@, direction) == tile_count(board@)
            },
        },
{
    proof {
        use_type_invariant(board);
        lemma_gain_even(board@, direction);
        lemma_move_takes_tiles(board@, direction);
    }
    let mut lanes: Vec<Vec<TileState>> = Vec::new();
    let mut total: u32 = 0;
    let mut changed = false;
    let mut k: usize = 0;
    while k < BOARD_LENGTH
        invariant
            k <= BOARD_LENGTH,
            gain(board@, direction) <= u32::MAX,
            lanes@.len() == k,
            forall|j: int|
                0 <= j < k ==> line_view((#[trigger] lanes@[j])@) == slid(lane(board@, direction, j)),
            total == gain_upto(board@, direction, k as nat),
            changed <==> exists|j: int|
                0 <= j < k && slid(#[trigger] lane(board@, direction, j)) != lane(
                    board@,
                    direction,
                    j,
                ),
        decreases BOARD_LENGTH - k,
    {
        proof {
            lemma_gain_upto_grows(board@, direction, (k + 1) as nat, BOARD_LENGTH as nat);
        }
        let mut line = read_lane(board, direction, k);
        let (gained, line_changed) = slide_line(&mut line);
        total = total + gained;
        changed = changed || line_changed;
        lanes.push(line);
        k = k + 1;
    }
    proof {
        lemma_moved_by_lanes(board@, direction);
    }
    if !changed {
        return Outcome::Unchanged;
    }
    let mut cells: Vec<Vec<TileState>> = Vec::new();
    let mut r: usize = 0;
    while r < BOARD_LENGTH
        invariant
            r <= BOARD_LENGTH,
            lanes@.len() == BOARD_LENGTH,
            forall|j: int|
                0 <= j < BOARD_LENGTH ==> line_view((#[trigger] lanes@[j])@) == slid(
                    lane(board@, direction, j),
                ),
            cells@.len() == r,
            forall|j: int|
                0 <= j < r ==> line_view((#[trigger] cells@[j])@) == moved(board@, direction)[j],
        decreases BOARD_LENGTH - r,
    {
        let mut row: Vec<TileState> = Vec::new();
        let mut c: usize = 0;
        while c < BOARD_LENGTH
            invariant
                r < BOARD_LENGTH,
                c <= BOARD_LENGTH,
                lanes@.len() == BOARD_LENGTH,
                forall|j: int|
                    0 <= j < BOARD_LENGTH ==> line_view((#[trigger] lanes@[j])@) == slid(
                        lane(board@, direction, j),
                    ),
                row@.len() == c,
                forall|j: int|
                    0 <= j < c ==> (#[trigger] row@[j])@ == moved(board@, direction)[r as int][j],
            decreases BOARD_LENGTH - c,
        {
            let (lk, li) = lane_of_cell(direction, r, c);
            proof {
                let l = line_view(lanes@[lk as int]@);
                assert(l == slid(lane(board@, direction, lk as int)));
                assert(l.len() == BOARD_LENGTH);
                assert(l[li as int] == lanes@[lk as int]@[li as int]@);
            }
            row.push(lanes[lk][li]);
            c = c + 1;
        }
        assert(line_view(row@) =~= moved(board@, direction)[r as int]);
        cells.push(row);
        r = r + 1;
    }
    proof {
        assert(rows_view(cells@) =~= moved(board@, direction));
        lemma_moved_valid(board@, direction);
    }
    Outcome::Changed(Grid::from_cells(cells), total)
}

/// Moves the tiles up. `None` where that leaves the board as it is.
pub fn move_up(board: &Grid) -> (out: Option<(Grid, u32)>)
    requires
        gain(board@, Arrow::Up) <= u32::MAX,
    ensures
        match out {
            None => moved(board@, Arrow::Up) == board@,
            Some((g, s)) => {
                &&& g@ == moved(board@, Arrow::Up)
                &&& g@ != board@
                &&& s == gain(board@, Arrow::Up)
            },
        },
{
    match apply_move(board, Arrow::Up) {
        Outcome::Changed(g, s) => Some((g, s)),
        Outcome::Unchanged => None,
    }
}

/// Moves the tiles down. `None` where that leaves the board as it is.
pub fn move_down(board: &Grid) -> (out: Option<(Grid, u32)>)
    requires
        gain(board@, Arrow::Down) <= u32::MAX,
    ensures
        match out {
            None => moved(board@, Arrow::Down) == board@,
            Some((g, s)) => {
                &&& g@ == moved(board@, Arrow::Down)
                &&& g@ != board@
                &&& s == gain(board@, Arrow::Down)
            },
        },
{
    match apply_move(board, Arrow::Down) {
        Outcome::Changed(g, s) => Some((g, s)),
        Outcome::Unchanged => None,
    }
}

/// Moves the tiles to the left. `None` where that leaves the board as it is.
pub fn move_left(board: &Grid) -> (out: Option<(Grid, u32)>)
    requires
        gain(board@, Arrow::Left) <= u32::MAX,
    ensures
        match out {
            None => moved(board@, Arrow::Left) == board@,
            Some((g, s)) => {
                &&& g@ == moved(board@, Arrow::Left)
                &&& g@ != board@
                &&& s == gain(board@, Arrow::Left)
            },
        },
{
    match apply_move(board, Arrow::Left) {
        Outcome::Changed(g, s) => Some((g, s)),
        Outcome::Unchanged => None,
    }
}

/// Moves the tiles to the right. `None` where that leaves the board as it
/// is.
pub fn move_right(board: &Grid) -> (out: Option<(Grid, u32)>)
    requires
        gain(board@, Arrow::Right) <= u32::MAX,
    ensures
        match out {
            None => moved(board@, Arrow::Right) == board@,
            Some((g, s)) => {
                &&& g@ == moved(board@, Arrow::Right)
                &&& g@ != board@
                &&& s == gain(board@, Arrow::Right)
            },
        },
{
    match apply_move(board, Arrow::Right) {
        Outcome::Changed(g, s) => Some((g, s)),
        Outcome::Unchanged => None,
    }
}

/// The score that a move in the given direction would gain.
pub fn move_gain(board: &Grid, direction: Arrow) -> (total: u64)
    ensures
        total == gain(board@, direction),
        total <= 0x10_0000_0000,
{
    let mut total: u64 = 0;
    let mut k: usize = 0;
    while k < BOARD_LENGTH
        invariant
            k <= BOARD_LENGTH,
            total == gain_upto(board@, direction, k as nat),
            total <= k * 0x4_0000_0000,
        decreases BOARD_LENGTH - k,
    {
        let line = read_lane(board, direction, k);
        let gained = gain_of_line(&line);
        total = total + gained;
        k = k + 1;
    }
    total
}

} // verus!
