//! One line of the board, read from the edge that the tiles move toward:
//! what a move makes of it, and the two passes that make it.

use vstd::prelude::*;

use crate::line_lemmas::{
    lemma_compact_is_pad, lemma_compact_step, lemma_merge_short, lemma_merge_step_keep,
    lemma_merge_step_pair, lemma_merged_len, lemma_merged_pair, lemma_tiles_len, lemma_tiles_pad,
    lemma_tiles_split, lemma_tiles_two,
};
use crate::tile::{is_tile_value, valid_cell, Cell, TileState};

verus! {

/// The values of the tiles on a line, in order, with the empty cells left out.
pub open spec fn tiles(line: Seq<Cell>) -> Seq<nat>
    decreases line.len(),
{
    if line.len() == 0 {
        Seq::empty()
    } else {
        match line[0] {
            Some(v) => seq![v] + tiles(line.skip(1)),
            None => tiles(line.skip(1)),
        }
    }
}

/// The tiles after merging: going from the front, two equal neighbours become
/// one tile of twice the value, and a tile that came out of a merge is not
/// merged again.
pub open spec fn merged(s: Seq<nat>) -> Seq<nat>
    decreases s.len(),
{
    if s.len() == 0 {
        s
    } else if s.len() >= 2 && s[0] == s[1] {
        seq![2 * s[0]] + merged(s.skip(2))
    } else {
        seq![s[0]] + merged(s.skip(1))
    }
}

/// The sum of the values of the tiles that the merges of `s` create.
pub open spec fn score(s: Seq<nat>) -> nat
    decreases s.len(),
{
    if s.len() == 0 {
        0
    } else if s.len() >= 2 && s[0] == s[1] {
        2 * s[0] + score(s.skip(2))
    } else {
        score(s.skip(1))
    }
}

/// The number of merges that `s` undergoes.
pub open spec fn pairs(s: Seq<nat>) -> nat
    decreases s.len(),
{
    if s.len() == 0 {
        0
    } else if s.len() >= 2 && s[0] == s[1] {
        1 + pairs(s.skip(2))
    } else {
        pairs(s.skip(1))
    }
}

/// A line of `n` cells that holds the tiles `s` at its front and is empty
/// behind them.
pub open spec fn pad(s: Seq<nat>, n: nat) -> Seq<Cell> {
    Seq::new(n, |i: int| if i < s.len() { Some(s[i]) } else { None })
}

/// The line after a move toward its front.
pub open spec fn slid(line: Seq<Cell>) -> Seq<Cell> {
    pad(merged(tiles(line)), line.len())
}

/// The score that a move toward the front of the line gains.
pub open spec fn line_gain(line: Seq<Cell>) -> nat {
    score(tiles(line))
}

/// No tile stands behind an empty cell.
pub open spec fn compact(line: Seq<Cell>) -> bool {
    forall|i: int, j: int| 0 <= i <= j < line.len() && line[i] is None ==> line[j] is None
}

/// Cell `i` holds the nearest tile behind the tile of cell `p`.
pub open spec fn neighbours(line: Seq<Cell>, p: int, i: int) -> bool {
    &&& 0 <= p < i < line.len()
    &&& line[p] is Some
    &&& line[i] is Some
    &&& forall|j: int| p < j < i ==> line[j] is None
}

/// Some tile of the line equals the nearest tile behind it.
pub open spec fn mergeable(line: Seq<Cell>) -> bool {
    exists|p: int, i: int| #[trigger] neighbours(line, p, i) && line[p] == line[i]
}

/// Each cell of the line is empty or holds a tile value.
pub open spec fn valid_line(line: Seq<Cell>) -> bool {
    forall|i: int| 0 <= i < line.len() ==> valid_cell(#[trigger] line[i])
}

/// Each of the values is a tile value.
pub open spec fn all_tile_values(s: Seq<nat>) -> bool {
    forall|i: int| 0 <= i < s.len() ==> is_tile_value(#[trigger] s[i])
}

/// The cells of a line of the board, as the contracts see them.
pub open spec fn line_view(v: Seq<TileState>) -> Seq<Cell> {
    Seq::new(v.len(), |i: int| v[i]@)
}

/// All cells of the line hold a tile.
pub open spec fn full_line(a: Seq<Cell>) -> bool {
    forall|i: int| 0 <= i < a.len() ==> (#[trigger] a[i]) is Some
}

/// No value equals the one behind it.
pub open spec fn no_equal_neighbours(s: Seq<nat>) -> bool {
    forall|p: int, q: int| 0 <= p && q == p + 1 && q < s.len() ==> #[trigger] s[p] != #[trigger] s[q]
}

/// The line after `n` moves toward its front.
pub open spec fn slid_times(line: Seq<Cell>, n: nat) -> Seq<Cell>
    decreases n,
{
    if n == 0 {
        line
    } else {
        slid_times(slid(line), (n - 1) as nat)
    }
}

/// What bounds the moves that can still change a line: the number of its
/// tiles, and one more where a tile stands behind an empty cell.
pub open spec fn unrest(a: Seq<Cell>) -> nat {
    if compact(a) {
        tiles(a).len()
    } else {
        tiles(a).len() + 1
    }
}

/// The first occupied cell at or behind `from`, or the length of the line
/// where there is none.
fn next_tile(line: &Vec<TileState>, from: usize) -> (i: usize)
    requires
        from <= line@.len(),
    ensures
        from <= i <= line@.len(),
        forall|j: int| from <= j < i ==> line@[j] == TileState::Empty,
        i < line@.len() ==> line@[i as int] != TileState::Empty,
{
    let mut i: usize = from;
    while i < line.len()
        invariant
            from <= i <= line@.len(),
            forall|j: int| from <= j < i ==> line@[j] == TileState::Empty,
        decreases line@.len() - i,
    {
        match line[i] {
            TileState::Value(_) => {
                return i;
            },
            TileState::Empty => {},
        }
        i = i + 1;
    }
    i
}

/// The merge pass: each tile, from the front, takes up the next tile behind
/// it where the two are equal. Returns the score gained and whether anything
/// merged.
fn merge_pass(line: &mut Vec<TileState>) -> (res: (u32, bool))
    requires
        line_gain(line_view(old(line)@)) <= u32::MAX,
    ensures
        final(line)@.len() == old(line)@.len(),
        tiles(line_view(final(line)@)) == merged(tiles(line_view(old(line)@))),
        res.0 == line_gain(line_view(old(line)@)),
        res.1 <==> pairs(tiles(line_view(old(line)@))) > 0,
        !res.1 ==> final(line)@ == old(line)@,
{
    let ghost v0 = line@;
    let ghost a0 = line_view(line@);
    let ghost mut done: nat = 0;
    let n = line.len();
    let mut gained: u32 = 0;
    let mut any = false;
    let mut p: usize = 0;
    proof {
        assert(a0.take(0) =~= Seq::<Cell>::empty());
        assert(a0.skip(0) =~= a0);
        assert(tiles(a0.take(0)) + merged(tiles(a0)) =~= merged(tiles(a0)));
    }
    while p + 1 < n
        invariant
            line@.len() == n,
            v0.len() == n,
            a0 == line_view(v0),
            n > 0 ==> p < n,
            n == 0 ==> p == 0,
            score(tiles(a0)) <= u32::MAX,
            tiles(line_view(line@).take(p as int)) + merged(tiles(line_view(line@).skip(p as int)))
                == merged(tiles(a0)),
            gained + score(tiles(line_view(line@).skip(p as int))) == score(tiles(a0)),
            done + pairs(tiles(line_view(line@).skip(p as int))) == pairs(tiles(a0)),
            any <==> done > 0,
            !any ==> line@ == v0,
        decreases n - p,
    {
        let ghost a = line_view(line@);
        match line[p] {
            TileState::Value(x) => {
                let i = next_tile(line, p + 1);
                let mut pair = false;
                if i < n {
                    match line[i] {
                        TileState::Value(y) => {
                            pair = x == y;
                        },
                        TileState::Empty => {},
                    }
                }
                if pair {
                    proof {
                        lemma_merge_step_pair(a, p as int, i as int, x as nat);
                    }
                    line[p] = TileState::Value(2 * x);
                    line[i] = TileState::Empty;
                    any = true;
                    gained = gained + 2 * x;
                    proof {
                        done = done + 1;
                        assert(line_view(line@) =~= a.update(p as int, Some(2 * (x as nat))).update(
                            i as int,
                            None,
                        ));
                    }
                } else {
                    proof {
                        lemma_merge_step_keep(a, p as int, i as int);
                    }
                }
            },
            TileState::Empty => {
                proof {
                    lemma_merge_step_keep(a, p as int, p + 1);
                }
            },
        }
        p = p + 1;
    }
    proof {
        let a = line_view(line@);
        lemma_merge_short(a.skip(p as int));
        lemma_tiles_split(a, p as int);
    }
    (gained, any)
}

/// The compaction pass: each empty cell, from the front, receives the next
/// tile behind it. Returns whether a tile moved.
fn compact_pass(line: &mut Vec<TileState>) -> (moved: bool)
    ensures
        final(line)@.len() == old(line)@.len(),
        line_view(final(line)@) == pad(tiles(line_view(old(line)@)), old(line)@.len()),
        moved <==> line_view(final(line)@) != line_view(old(line)@),
        !moved ==> final(line)@ == old(line)@,
{
    let ghost v1 = line@;
    let ghost a1 = line_view(line@);
    let n = line.len();
    let mut moved = false;
    let mut p: usize = 0;
    while p + 1 < n
        invariant
            line@.len() == n,
            v1.len() == n,
            a1 == line_view(v1),
            n > 0 ==> p < n,
            n == 0 ==> p == 0,
            tiles(line_view(line@)) == tiles(a1),
            forall|j: int, k: int|
                0 <= j < p && j <= k < n && line_view(line@)[j] is None ==> line_view(
                    line@,
                )[k] is None,
            !moved ==> line@ == v1,
            moved ==> !compact(a1),
        decreases n - p,
    {
        let ghost a = line_view(line@);
        match line[p] {
            TileState::Empty => {
                let i = next_tile(line, p + 1);
                if i < n {
                    proof {
                        lemma_compact_step(a, p as int, i as int);
                        if !moved {
                            assert(a1[p as int] is None && a1[i as int] is Some);
                        }
                    }
                    let t = line[i];
                    line[p] = t;
                    line[i] = TileState::Empty;
                    moved = true;
                    proof {
                        let b = line_view(line@);
                        assert(b =~= a.update(p as int, a[i as int]).update(i as int, None));
                        assert forall|j: int, k: int|
                            0 <= j < p + 1 && j <= k < n && b[j] is None implies b[k] is None by {
                            if j < p {
                                assert(a[j] is None);
                                assert(a[i as int] is None);
                            }
                        }
                    }
                } else {
                    proof {
                        assert forall|j: int, k: int|
                            0 <= j < p + 1 && j <= k < n && a[j] is None implies a[k] is None by {
                            if j == p && k > p {
                                assert(line@[k] == TileState::Empty);
                            }
                        }
                    }
                }
            },
            TileState::Value(_) => {},
        }
        p = p + 1;
    }
    proof {
        let a = line_view(line@);
        assert(compact(a));
        lemma_compact_is_pad(a);
        lemma_tiles_len(a1);
        lemma_tiles_pad(tiles(a1), n as nat);
    }
    moved
}

/// Moves the tiles of a line toward its front: first the merge pass, then
/// the compaction pass. Returns the score gained and whether the line
/// changed.
pub fn slide_line(line: &mut Vec<TileState>) -> (res: (u32, bool))
    requires
        line_gain(line_view(old(line)@)) <= u32::MAX,
    ensures
        final(line)@.len() == old(line)@.len(),
        line_view(final(line)@) == slid(line_view(old(line)@)),
        res.0 == line_gain(line_view(old(line)@)),
        res.1 <==> slid(line_view(old(line)@)) != line_view(old(line)@),
{
    let ghost a0 = line_view(line@);
    let (gained, merged_any) = merge_pass(line);
    let moved_any = compact_pass(line);
    proof {
        lemma_merged_len(tiles(a0));
        lemma_tiles_len(a0);
        lemma_tiles_pad(merged(tiles(a0)), a0.len());
    }
    (gained, merged_any || moved_any)
}

/// The score that a move toward the front of the line would gain, counted
/// without moving a tile.
pub fn gain_of_line(line: &Vec<TileState>) -> (total: u64)
    requires
        line@.len() <= u32::MAX,
    ensures
        total == line_gain(line_view(line@)),
        total <= line@.len() * 0xffff_ffff,
{
    let ghost a = line_view(line@);
    let n = line.len();
    let mut total: u64 = 0;
    let mut p: usize = 0;
    proof {
        assert(a.skip(0) =~= a);
    }
    while p < n
        invariant
            line@.len() == n,
            n <= u32::MAX,
            a == line_view(line@),
            p <= n,
            total + score(tiles(a.skip(p as int))) == score(tiles(a)),
            total <= p * 0xffff_ffff,
        decreases n - p,
    {
        match line[p] {
            TileState::Value(x) => {
                let i = next_tile(line, p + 1);
                let mut pair = false;
                if i < n {
                    match line[i] {
                        TileState::Value(y) => {
                            pair = x == y;
                        },
                        TileState::Empty => {},
                    }
                }
                if pair {
                    proof {
                        lemma_tiles_two(a, p as int, i as int);
                        lemma_merged_pair(x as nat, tiles(a.skip(i + 1)));
                    }
                    total = total + 2 * (x as u64);
                    p = i + 1;
                } else {
                    proof {
                        lemma_merge_step_keep(a, p as int, i as int);
                    }
                    p = p + 1;
                }
            },
            TileState::Empty => {
                proof {
                    lemma_merge_step_keep(a, p as int, p + 1);
                }
                p = p + 1;
            },
        }
    }
    proof {
        assert(a.skip(n as int) =~= Seq::<Cell>::empty());
    }
    total
}

/// Whether some tile of the line equals the nearest tile behind it.
pub(crate) fn can_merge(line: &Vec<TileState>) -> (yes: bool)
    ensures
        yes == mergeable(line_view(line@)),
{
    let ghost a = line_view(line@);
    let n = line.len();
    let mut p: usize = 0;
    while p + 1 < n
        invariant
            line@.len() == n,
            a == line_view(line@),
            n > 0 ==> p < n,
            n == 0 ==> p == 0,
            forall|q: int, i: int| 0 <= q < p && #[trigger] neighbours(a, q, i) ==> a[q] != a[i],
        decreases n - p,
    {
        match line[p] {
            TileState::Value(x) => {
                let i = next_tile(line, p + 1);
                if i < n {
                    match line[i] {
                        TileState::Value(y) => {
                            if x == y {
                                assert(neighbours(a, p as int, i as int));
                                return true;
                            }
                        },
                        TileState::Empty => {},
                    }
                }
                assert forall|q: int, m: int|
                    0 <= q < p + 1 && #[trigger] neighbours(a, q, m) implies a[q] != a[m] by {
                    if q == p {
                        if m < i {
                            assert(line@[m] == TileState::Empty);
                        } else if m > i {
                            assert(a[i as int] is None);
                        }
                    }
                }
            },
            TileState::Empty => {},
        }
        p = p + 1;
    }
    false
}

} // verus!
