//! The board: a square of cells.

use vstd::prelude::*;
use vstd::std_specs::cmp::PartialEqSpecImpl;

use crate::line::line_view;
use crate::tile::{valid_cell, Cell, TileState};

verus! {

/// Side length of the board.
pub const BOARD_LENGTH: usize = 4;

/// A board as the contracts see it: its rows from top to bottom, each from
/// left to right.
pub type Board = Seq<Seq<Cell>>;

/// The board has `BOARD_LENGTH` rows of `BOARD_LENGTH` cells.
pub open spec fn square(g: Board) -> bool {
    &&& g.len() == BOARD_LENGTH
    &&& forall|r: int| 0 <= r < BOARD_LENGTH ==> (#[trigger] g[r]).len() == BOARD_LENGTH
}

/// The board is square and each of its cells is empty or holds a tile value.
pub open spec fn valid_board(g: Board) -> bool {
    &&& square(g)
    &&& forall|r: int, c: int|
        0 <= r < BOARD_LENGTH && 0 <= c < BOARD_LENGTH ==> valid_cell(#[trigger] g[r][c])
}

/// The board without tiles.
pub open spec fn empty_board() -> Board {
    Seq::new(BOARD_LENGTH as nat, |r: int| Seq::new(BOARD_LENGTH as nat, |c: int| None))
}

/// Rows of cells, as the contracts see them.
pub open spec fn rows_view(rows: Seq<Vec<TileState>>) -> Board {
    Seq::new(rows.len(), |r: int| line_view(rows[r]@))
}

/// A board of `BOARD_LENGTH` by `BOARD_LENGTH` cells, each empty or holding
/// one of 2, 4, 8, and so on.
#[derive(Debug)]
pub struct Grid {
    cells: Vec<Vec<TileState>>,
}

impl View for Grid {
    type V = Board;

    closed spec fn view(&self) -> Board {
        rows_view(self.cells@)
    }
}

impl Grid {
    /// Every grid is a valid board.
    #[verifier::type_invariant]
    pub open spec fn inv(&self) -> bool {
        valid_board(self@)
    }

    /// What the invariant says of the rows that the grid holds.
    proof fn lemma_rows(&self)
        requires
            self.inv(),
        ensures
            self.cells@.len() == BOARD_LENGTH,
            forall|r: int| 0 <= r < BOARD_LENGTH ==> (#[trigger] self.cells@[r])@.len() == BOARD_LENGTH,
            forall|r: int, c: int|
                0 <= r < BOARD_LENGTH && 0 <= c < BOARD_LENGTH ==> (#[trigger] self.cells@[r]@[c])@
                    == self@[r][c],
    {
        assert forall|r: int| 0 <= r < BOARD_LENGTH implies (#[trigger] self.cells@[r])@.len()
            == BOARD_LENGTH by {
            assert(self@[r].len() == BOARD_LENGTH);
        }
    }

    /// The grid whose rows are `cells`.
    pub(crate) fn from_cells(cells: Vec<Vec<TileState>>) -> (g: Grid)
        requires
            valid_board(rows_view(cells@)),
        ensures
            g@ == rows_view(cells@),
    {
        Grid { cells }
    }

    /// The grid without tiles.
    pub fn new() -> (g: Grid)
        ensures
            g@ == empty_board(),
    {
        let mut cells: Vec<Vec<TileState>> = Vec::new();
        let mut r: usize = 0;
        while r < BOARD_LENGTH
            invariant
                r <= BOARD_LENGTH,
                cells@.len() == r,
                forall|k: int| 0 <= k < r ==> line_view((#[trigger] cells@[k])@) == empty_board()[k],
            decreases BOARD_LENGTH - r,
        {
            let mut row: Vec<TileState> = Vec::new();
            let mut c: usize = 0;
            while c < BOARD_LENGTH
                invariant
                    c <= BOARD_LENGTH,
                    row@.len() == c,
                    forall|j: int| 0 <= j < c ==> row@[j] == TileState::Empty,
                decreases BOARD_LENGTH - c,
            {
                row.push(TileState::Empty);
                c = c + 1;
            }
            assert(line_view(row@) =~= empty_board()[r as int]);
            cells.push(row);
            r = r + 1;
        }
        assert(rows_view(cells@) =~= empty_board());
        Grid::from_cells(cells)
    }

    /// The grid whose rows are `rows`, where they make a valid board.
    pub fn from_rows(rows: Vec<Vec<TileState>>) -> (out: Option<Grid>)
        ensures
            out is Some <==> valid_board(rows_view(rows@)),
            out matches Some(g) ==> g@ == rows_view(rows@),
    {
        if rows.len() != BOARD_LENGTH {
            return None;
        }
        let mut r: usize = 0;
        while r < BOARD_LENGTH
            invariant
                r <= BOARD_LENGTH,
                rows@.len() == BOARD_LENGTH,
                forall|k: int| 0 <= k < r ==> (#[trigger] rows@[k])@.len() == BOARD_LENGTH,
                forall|k: int, j: int|
                    0 <= k < r && 0 <= j < BOARD_LENGTH ==> valid_cell(
                        #[trigger] rows_view(rows@)[k][j],
                    ),
            decreases BOARD_LENGTH - r,
        {
            if rows[r].len() != BOARD_LENGTH {
                assert(rows_view(rows@)[r as int].len() != BOARD_LENGTH);
                return None;
            }
            let mut c: usize = 0;
            while c < BOARD_LENGTH
                invariant
                    r < BOARD_LENGTH,
                    c <= BOARD_LENGTH,
                    rows@.len() == BOARD_LENGTH,
                    rows@[r as int]@.len() == BOARD_LENGTH,
                    forall|j: int| 0 <= j < c ==> valid_cell(#[trigger] rows_view(rows@)[r as int][j]),
                decreases BOARD_LENGTH - c,
            {
                if !rows[r][c].is_valid() {
                    assert(!valid_cell(rows_view(rows@)[r as int][c as int]));
                    return None;
                }
                c = c + 1;
            }
            r = r + 1;
        }
        Some(Grid::from_cells(rows))
    }

    /// The cell in row `r` and column `c`.
    pub fn get(&self, r: usize, c: usize) -> (t: TileState)
        requires
            r < BOARD_LENGTH,
            c < BOARD_LENGTH,
        ensures
            t@ == self@[r as int][c as int],
            valid_cell(t@),
    {
        proof {
            use_type_invariant(self);
            self.lemma_rows();
        }
        self.cells[r][c]
    }

    /// Puts `t` into the cell in row `r` and column `c`.
    pub fn set(&mut self, r: usize, c: usize, t: TileState)
        requires
            r < BOARD_LENGTH,
            c < BOARD_LENGTH,
            valid_cell(t@),
        ensures
            final(self)@ == old(self)@.update(r as int, old(self)@[r as int].update(c as int, t@)),
    {
        proof {
            use_type_invariant(&*self);
            self.lemma_rows();
        }
        let ghost before = self@;
        let mut cells: Vec<Vec<TileState>> = Vec::new();
        let mut i: usize = 0;
        while i < BOARD_LENGTH
            invariant
                r < BOARD_LENGTH,
                c < BOARD_LENGTH,
                i <= BOARD_LENGTH,
                valid_board(self@),
                forall|k: int| 0 <= k < BOARD_LENGTH ==> (#[trigger] self.cells@[k])@.len() == BOARD_LENGTH,
                self.cells@.len() == BOARD_LENGTH,
                cells@.len() == i,
                forall|k: int| 0 <= k < i ==> (#[trigger] cells@[k])@.len() == BOARD_LENGTH,
                forall|k: int, j: int|
                    0 <= k < i && 0 <= j < BOARD_LENGTH ==> (#[trigger] cells@[k]@[j])@ == (if k == r
                        && j == c {
                        t@
                    } else {
                        self@[k][j]
                    }),
            decreases BOARD_LENGTH - i,
        {
            let mut row: Vec<TileState> = Vec::new();
            let mut j: usize = 0;
            while j < BOARD_LENGTH
                invariant
                    r < BOARD_LENGTH,
                    c < BOARD_LENGTH,
                    i < BOARD_LENGTH,
                    j <= BOARD_LENGTH,
                    valid_board(self@),
                    self.cells@.len() == BOARD_LENGTH,
                    self.cells@[i as int]@.len() == BOARD_LENGTH,
                    row@.len() == j,
                    forall|m: int|
                        0 <= m < j ==> (#[trigger] row@[m])@ == (if i == r && m == c {
                            t@
                        } else {
                            self@[i as int][m]
                        }),
                decreases BOARD_LENGTH - j,
            {
                let cur = if i == r && j == c {
                    t
                } else {
                    self.cells[i][j]
                };
                row.push(cur);
                j = j + 1;
            }
            cells.push(row);
            i = i + 1;
        }
        proof {
            let after = before.update(r as int, before[r as int].update(c as int, t@));
            assert(rows_view(cells@) =~~= after);
            assert forall|k: int, j: int|
                0 <= k < BOARD_LENGTH && 0 <= j < BOARD_LENGTH implies valid_cell(
                #[trigger] after[k][j],
            ) by {
                assert(valid_cell(before[k][j]));
            }
        }
        self.cells = cells;
    }
}

impl Clone for Grid {
    /// A grid with the same cells.
    fn clone(&self) -> (g: Grid)
        ensures
            g@ == self@,
    {
        proof {
            use_type_invariant(self);
        }
        let mut cells: Vec<Vec<TileState>> = Vec::new();
        let mut r: usize = 0;
        while r < BOARD_LENGTH
            invariant
                r <= BOARD_LENGTH,
                valid_board(self@),
                cells@.len() == r,
                forall|k: int| 0 <= k < r ==> line_view((#[trigger] cells@[k])@) == self@[k],
            decreases BOARD_LENGTH - r,
        {
            let mut row: Vec<TileState> = Vec::new();
            let mut c: usize = 0;
            while c < BOARD_LENGTH
                invariant
                    r < BOARD_LENGTH,
                    c <= BOARD_LENGTH,
                    valid_board(self@),
                    row@.len() == c,
                    forall|j: int| 0 <= j < c ==> (#[trigger] row@[j])@ == self@[r as int][j],
                decreases BOARD_LENGTH - c,
            {
                row.push(self.get(r, c));
                c = c + 1;
            }
            assert(line_view(row@) =~= self@[r as int]);
            cells.push(row);
            r = r + 1;
        }
        assert(rows_view(cells@) =~= self@);
        Grid::from_cells(cells)
    }
}

impl PartialEq for Grid {
    /// Two grids are equal when each cell of one matches that cell of the
    /// other.
    fn eq(&self, other: &Grid) -> (same: bool) {
        proof {
            use_type_invariant(self);
            use_type_invariant(other);
        }
        let mut r: usize = 0;
        while r < BOARD_LENGTH
            invariant
                r <= BOARD_LENGTH,
                valid_board(self@),
                valid_board(other@),
                forall|k: int, j: int|
                    0 <= k < r && 0 <= j < BOARD_LENGTH ==> self@[k][j] == other@[k][j],
            decreases BOARD_LENGTH - r,
        {
            let mut c: usize = 0;
            while c < BOARD_LENGTH
                invariant
                    r < BOARD_LENGTH,
                    c <= BOARD_LENGTH,
                    valid_board(self@),
                    valid_board(other@),
                    forall|j: int| 0 <= j < c ==> self@[r as int][j] == other@[r as int][j],
                decreases BOARD_LENGTH - c,
            {
                if self.get(r, c) != other.get(r, c) {
                    assert(self@[r as int][c as int] != other@[r as int][c as int]);
                    return false;
                }
                c = c + 1;
            }
            r = r + 1;
        }
        assert(self@ =~~= other@);
        true
    }
}

impl PartialEqSpecImpl for Grid {
    open spec fn obeys_eq_spec() -> bool {
        true
    }

    open spec fn eq_spec(&self, other: &Grid) -> bool {
        self@ == other@
    }
}

} // verus!
