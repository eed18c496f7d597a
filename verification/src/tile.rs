//! The content of one cell.

use vstd::arithmetic::power2::is_pow2;
use vstd::prelude::*;

verus! {

/// What one cell of the board holds.
#[derive(Clone, Copy, PartialEq, Eq, Debug, Structural)]
pub enum TileState {
    Empty,
    Value(u32),
}

/// A cell as the contracts see it: `None` when empty, else the value of its
/// tile, which has no upper bound.
pub type Cell = Option<nat>;

/// The values a tile can take: 2, 4, 8, and so on.
pub open spec fn is_tile_value(v: nat) -> bool {
    v >= 2 && is_pow2(v as int)
}

/// A cell is valid when it is empty or holds a tile value.
pub open spec fn valid_cell(c: Cell) -> bool {
    c matches Some(v) ==> is_tile_value(v)
}

impl View for TileState {
    type V = Cell;

    open spec fn view(&self) -> Cell {
        match *self {
            TileState::Empty => None,
            TileState::Value(x) => Some(x as nat),
        }
    }
}

/// Doubling a tile value gives a tile value.
pub(crate) proof fn lemma_double_is_tile_value(v: nat)
    requires
        is_tile_value(v),
    ensures
        is_tile_value(2 * v),
{
    reveal(is_pow2);
    assert((2 * v) as int / 2 == v as int);
}

/// New tiles have the value 2 or 4, and both are tile values.
pub(crate) proof fn lemma_new_tile_values()
    ensures
        is_tile_value(2),
        is_tile_value(4),
{
    reveal(is_pow2);
    assert(is_pow2(1));
    assert(is_pow2(2));
    lemma_double_is_tile_value(2);
}

/// Whether `x` is a power of two.
fn is_power_of_two(x: u32) -> (ok: bool)
    ensures
        ok == is_pow2(x as int),
{
    if x == 0 {
        proof {
            reveal(is_pow2);
        }
        return false;
    }
    let mut m: u32 = x;
    while m % 2 == 0
        invariant
            0 < m <= x,
            is_pow2(m as int) == is_pow2(x as int),
        decreases m,
    {
        proof {
            reveal(is_pow2);
        }
        m = m / 2;
    }
    proof {
        reveal(is_pow2);
    }
    m == 1
}

impl TileState {
    /// Whether the cell is empty or holds one of 2, 4, 8, and so on.
    pub fn is_valid(&self) -> (ok: bool)
        ensures
            ok == valid_cell(self@),
    {
        match *self {
            TileState::Empty => true,
            TileState::Value(x) => x >= 2 && is_power_of_two(x),
        }
    }
}

} // verus!
