//! What holds of a line and of a move on it.

use vstd::prelude::*;

use crate::line::{
    all_tile_values, compact, full_line, mergeable, merged, neighbours, no_equal_neighbours, pad,
    pairs, score, slid, slid_times, tiles, unrest, valid_line,
};
use crate::tile::{is_tile_value, lemma_double_is_tile_value, valid_cell, Cell};

verus! {

/// The tiles of two lines put together are the tiles of the first and then
/// those of the second.
pub(crate) proof fn lemma_tiles_concat(a: Seq<Cell>, b: Seq<Cell>)
    ensures
        tiles(a + b) == tiles(a) + tiles(b),
    decreases a.len(),
{
    if a.len() == 0 {
        assert(a + b =~= b);
        assert(tiles(a) + tiles(b) =~= tiles(b));
    } else {
        lemma_tiles_concat(a.skip(1), b);
        assert((a + b).skip(1) =~= a.skip(1) + b);
        assert((a + b)[0] == a[0]);
        match a[0] {
            Some(v) => {
                assert(seq![v] + (tiles(a.skip(1)) + tiles(b)) =~= (seq![v] + tiles(a.skip(1)))
                    + tiles(b));
            },
            None => {},
        }
    }
}

/// The tiles from cell `p` on are the tile of cell `p`, if it has one, and
/// then those from cell `p + 1` on.
pub(crate) proof fn lemma_tiles_from(a: Seq<Cell>, p: int)
    requires
        0 <= p < a.len(),
    ensures
        tiles(a.skip(p)) == match a[p] {
            Some(v) => seq![v] + tiles(a.skip(p + 1)),
            None => tiles(a.skip(p + 1)),
        },
{
    assert(a.skip(p).skip(1) =~= a.skip(p + 1));
    assert(a.skip(p)[0] == a[p]);
}

/// The tiles of the first `p + 1` cells are those of the first `p` cells and
/// then the tile of cell `p`, if it has one.
pub(crate) proof fn lemma_tiles_upto(a: Seq<Cell>, p: int)
    requires
        0 <= p < a.len(),
    ensures
        tiles(a.take(p + 1)) == match a[p] {
            Some(v) => tiles(a.take(p)) + seq![v],
            None => tiles(a.take(p)),
        },
{
    let last = seq![a[p]];
    assert(a.take(p + 1) =~= a.take(p) + last);
    lemma_tiles_concat(a.take(p), last);
    assert(last.skip(1) =~= Seq::<Cell>::empty());
    assert(tiles(last.skip(1)) =~= Seq::<nat>::empty());
    match a[p] {
        Some(v) => {
            assert(tiles(last) =~= seq![v]);
        },
        None => {
            assert(tiles(a.take(p)) + tiles(last) =~= tiles(a.take(p)));
        },
    }
}

/// Empty cells add no tiles.
pub(crate) proof fn lemma_tiles_gap(a: Seq<Cell>, p: int, i: int)
    requires
        0 <= p <= i <= a.len(),
        forall|j: int| p <= j < i ==> a[j] is None,
    ensures
        tiles(a.skip(p)) == tiles(a.skip(i)),
    decreases i - p,
{
    if p < i {
        lemma_tiles_from(a, p);
        lemma_tiles_gap(a, p + 1, i);
    }
}

/// A line has at most as many tiles as cells.
pub(crate) proof fn lemma_tiles_len(a: Seq<Cell>)
    ensures
        tiles(a).len() <= a.len(),
    decreases a.len(),
{
    if a.len() > 0 {
        lemma_tiles_len(a.skip(1));
    }
}

/// A front tile with no equal neighbour behind it stays as it is.
pub(crate) proof fn lemma_merged_keep(x: nat, r: Seq<nat>)
    requires
        r.len() == 0 || r[0] != x,
    ensures
        merged(seq![x] + r) == seq![x] + merged(r),
        score(seq![x] + r) == score(r),
        pairs(seq![x] + r) == pairs(r),
{
    let s = seq![x] + r;
    assert(s.skip(1) =~= r);
    assert(s[0] == x);
    if r.len() > 0 {
        assert(s[1] == r[0]);
    }
}

/// Two equal tiles at the front become one of twice the value.
pub(crate) proof fn lemma_merged_pair(x: nat, r: Seq<nat>)
    ensures
        merged(seq![x] + (seq![x] + r)) == seq![2 * x] + merged(r),
        score(seq![x] + (seq![x] + r)) == 2 * x + score(r),
        pairs(seq![x] + (seq![x] + r)) == 1 + pairs(r),
{
    let s = seq![x] + (seq![x] + r);
    assert(s.skip(2) =~= r);
    assert(s[0] == x && s[1] == x);
}

/// Every merge takes one tile away, and where nothing merges nothing
/// changes.
pub(crate) proof fn lemma_merged_len(s: Seq<nat>)
    ensures
        merged(s).len() + pairs(s) == s.len(),
        pairs(s) == 0 ==> merged(s) == s && score(s) == 0,
    decreases s.len(),
{
    if s.len() == 0 {
    } else if s.len() >= 2 && s[0] == s[1] {
        lemma_merged_len(s.skip(2));
    } else {
        lemma_merged_len(s.skip(1));
        if pairs(s) == 0 {
            assert(seq![s[0]] + s.skip(1) =~= s);
        }
    }
}

/// A padded line holds the tiles it was made of.
pub(crate) proof fn lemma_tiles_pad(s: Seq<nat>, n: nat)
    requires
        s.len() <= n,
    ensures
        tiles(pad(s, n)) == s,
        compact(pad(s, n)),
    decreases n,
{
    let line = pad(s, n);
    if n == 0 {
        assert(s =~= Seq::<nat>::empty());
    } else if s.len() == 0 {
        lemma_tiles_gap(line, 0, n as int);
        assert(line.skip(0) =~= line);
        assert(line.skip(n as int) =~= Seq::<Cell>::empty());
        assert(s =~= Seq::<nat>::empty());
    } else {
        assert(line.skip(1) =~= pad(s.skip(1), (n - 1) as nat));
        lemma_tiles_pad(s.skip(1), (n - 1) as nat);
        assert(seq![s[0]] + s.skip(1) =~= s);
    }
}

/// A line with no tile behind an empty cell is its tiles, padded.
pub(crate) proof fn lemma_compact_is_pad(a: Seq<Cell>)
    requires
        compact(a),
    ensures
        a == pad(tiles(a), a.len()),
    decreases a.len(),
{
    let n = a.len();
    if n == 0 {
        assert(a =~= pad(tiles(a), n));
    } else {
        match a[0] {
            None => {
                assert(forall|j: int| 0 <= j < n ==> a[j] is None);
                lemma_tiles_gap(a, 0, n as int);
                assert(a.skip(0) =~= a);
                assert(a.skip(n as int) =~= Seq::<Cell>::empty());
                assert(a =~= pad(tiles(a), n));
            },
            Some(v) => {
                let rest = a.skip(1);
                assert(compact(rest)) by {
                    assert forall|i: int, j: int|
                        0 <= i <= j < rest.len() && rest[i] is None implies rest[j] is None by {
                        assert(a[i + 1] is None);
                        assert(a[j + 1] is None);
                    }
                }
                lemma_compact_is_pad(rest);
                let t = tiles(rest);
                assert(tiles(a) == seq![v] + t);
                assert forall|i: int| 0 <= i < n implies a[i] == pad(tiles(a), n)[i] by {
                    if i > 0 {
                        assert(a[i] == rest[i - 1]);
                        assert(rest[i - 1] == pad(t, rest.len())[i - 1]);
                    }
                }
                assert(a =~= pad(tiles(a), n));
            },
        }
    }
}

/// The tiles of a valid line are tile values.
pub(crate) proof fn lemma_tiles_valid(line: Seq<Cell>)
    requires
        valid_line(line),
    ensures
        all_tile_values(tiles(line)),
    decreases line.len(),
{
    if line.len() > 0 {
        let rest = line.skip(1);
        assert forall|i: int| 0 <= i < rest.len() implies valid_cell(#[trigger] rest[i]) by {
            assert(valid_cell(line[i + 1]));
        }
        lemma_tiles_valid(rest);
        assert(valid_cell(line[0]));
    }
}

/// Merging tile values gives tile values.
pub(crate) proof fn lemma_merged_valid(s: Seq<nat>)
    requires
        all_tile_values(s),
    ensures
        all_tile_values(merged(s)),
    decreases s.len(),
{
    if s.len() == 0 {
    } else if s.len() >= 2 && s[0] == s[1] {
        let rest = s.skip(2);
        assert forall|i: int| 0 <= i < rest.len() implies is_tile_value(#[trigger] rest[i]) by {
            assert(is_tile_value(s[i + 2]));
        }
        lemma_merged_valid(rest);
        assert(is_tile_value(s[0]));
        lemma_double_is_tile_value(s[0]);
    } else {
        let rest = s.skip(1);
        assert forall|i: int| 0 <= i < rest.len() implies is_tile_value(#[trigger] rest[i]) by {
            assert(is_tile_value(s[i + 1]));
        }
        lemma_merged_valid(rest);
        assert(is_tile_value(s[0]));
    }
}

/// A move keeps the cells of a line valid: what merges is a tile value, and
/// so is its double.
pub(crate) proof fn lemma_slid_valid(line: Seq<Cell>)
    requires
        valid_line(line),
    ensures
        valid_line(slid(line)),
{
    lemma_tiles_valid(line);
    lemma_merged_valid(tiles(line));
    let m = merged(tiles(line));
    assert forall|i: int| 0 <= i < slid(line).len() implies valid_cell(#[trigger] slid(line)[i]) by {
        if i < m.len() {
            assert(is_tile_value(m[i]));
        }
    }
}

/// A line without an empty cell has a tile for each cell, with its value.
pub(crate) proof fn lemma_full_line_tiles(a: Seq<Cell>)
    requires
        full_line(a),
    ensures
        tiles(a).len() == a.len(),
        forall|i: int| 0 <= i < a.len() ==> a[i] == Some(#[trigger] tiles(a)[i]),
    decreases a.len(),
{
    if a.len() > 0 {
        let rest = a.skip(1);
        assert(full_line(rest)) by {
            assert forall|i: int| 0 <= i < rest.len() implies (#[trigger] rest[i]) is Some by {
                assert(a[i + 1] is Some);
            }
        }
        lemma_full_line_tiles(rest);
        assert(a[0] is Some);
        let v = a[0]->0;
        assert(tiles(a) == seq![v] + tiles(rest));
        assert forall|i: int| 0 <= i < a.len() implies a[i] == Some(#[trigger] tiles(a)[i]) by {
            if i > 0 {
                assert(a[i] == rest[i - 1]);
                assert(tiles(a)[i] == tiles(rest)[i - 1]);
            }
        }
    }
}

/// A line with as many tiles as cells has no empty cell.
pub(crate) proof fn lemma_tiles_all_full(a: Seq<Cell>)
    requires
        tiles(a).len() == a.len(),
    ensures
        full_line(a),
    decreases a.len(),
{
    if a.len() > 0 {
        let rest = a.skip(1);
        lemma_tiles_len(rest);
        assert(a[0] is Some);
        lemma_tiles_all_full(rest);
        assert forall|i: int| 0 <= i < a.len() implies (#[trigger] a[i]) is Some by {
            if i > 0 {
                assert(a[i] == rest[i - 1]);
            }
        }
    }
}

/// A line has as many tiles as cells exactly where no cell is empty, and
/// then its tiles are the values of its cells.
pub(crate) proof fn lemma_tiles_full(a: Seq<Cell>)
    ensures
        tiles(a).len() == a.len() <==> full_line(a),
        full_line(a) ==> forall|i: int| 0 <= i < a.len() ==> a[i] == Some(#[trigger] tiles(a)[i]),
{
    if full_line(a) {
        lemma_full_line_tiles(a);
    }
    if tiles(a).len() == a.len() {
        lemma_tiles_all_full(a);
    }
}

/// A line without tiles has empty cells only.
pub(crate) proof fn lemma_tiles_none(a: Seq<Cell>)
    ensures
        tiles(a).len() == 0 <==> forall|i: int| 0 <= i < a.len() ==> a[i] is None,
    decreases a.len(),
{
    if a.len() > 0 {
        let rest = a.skip(1);
        lemma_tiles_none(rest);
        if forall|i: int| 0 <= i < a.len() ==> a[i] is None {
            assert forall|i: int| 0 <= i < rest.len() implies rest[i] is None by {
                assert(a[i + 1] is None);
            }
            assert(a[0] is None);
        }
        if tiles(a).len() == 0 {
            assert forall|i: int| 0 <= i < a.len() implies a[i] is None by {
                if i > 0 {
                    assert(a[i] == rest[i - 1]);
                }
            }
        }
    }
}

/// Nothing merges exactly where no tile equals the one behind it.
pub(crate) proof fn lemma_pairs_none(s: Seq<nat>)
    ensures
        pairs(s) == 0 <==> no_equal_neighbours(s),
    decreases s.len(),
{
    if s.len() == 0 {
    } else if s.len() >= 2 && s[0] == s[1] {
    } else {
        let rest = s.skip(1);
        lemma_pairs_none(rest);
        if pairs(s) == 0 {
            assert forall|p: int, q: int| 0 <= p && q == p + 1 && q < s.len() implies #[trigger] s[p]
                != #[trigger] s[q] by {
                if p > 0 {
                    assert(rest[p - 1] != rest[q - 1]);
                }
            }
        }
        if no_equal_neighbours(s) {
            assert forall|p: int, q: int|
                0 <= p && q == p + 1 && q < rest.len() implies #[trigger] rest[p]
                != #[trigger] rest[q] by {
                assert(s[p + 1] != s[q + 1]);
            }
        }
    }
}

/// The score of a move is even.
pub(crate) proof fn lemma_score_even(s: Seq<nat>)
    ensures
        score(s) % 2 == 0,
    decreases s.len(),
{
    if s.len() == 0 {
    } else if s.len() >= 2 && s[0] == s[1] {
        lemma_score_even(s.skip(2));
    } else {
        lemma_score_even(s.skip(1));
    }
}

/// A move leaves a line as it is exactly where no tile stands behind an
/// empty cell and nothing merges.
pub(crate) proof fn lemma_fixed_line(a: Seq<Cell>)
    ensures
        slid(a) == a <==> compact(a) && pairs(tiles(a)) == 0,
        compact(slid(a)),
        tiles(slid(a)) == merged(tiles(a)),
{
    let t = tiles(a);
    lemma_tiles_len(a);
    lemma_merged_len(t);
    lemma_tiles_pad(merged(t), a.len());
    if compact(a) && pairs(t) == 0 {
        lemma_compact_is_pad(a);
    }
}

/// A move that changes a line leaves its last cell empty.
pub(crate) proof fn lemma_changed_line_has_room(a: Seq<Cell>)
    requires
        slid(a) != a,
    ensures
        a.len() > 0,
        slid(a)[a.len() - 1] is None,
{
    let t = tiles(a);
    lemma_fixed_line(a);
    lemma_tiles_len(a);
    lemma_merged_len(t);
    lemma_tiles_full(a);
    // a line without an empty cell on which nothing merges is left as it
    // is, so after this move the tiles are fewer than the cells
    assert(merged(t).len() < a.len()) by {
        if merged(t).len() == a.len() {
            assert(compact(a));
        }
    }
}

/// A line read from its other end can merge exactly where the line can.
pub(crate) proof fn lemma_mergeable_reverse(a: Seq<Cell>, b: Seq<Cell>)
    requires
        a.len() == b.len(),
        forall|i: int| 0 <= i < a.len() ==> b[i] == a[a.len() - 1 - i],
    ensures
        mergeable(a) == mergeable(b),
{
    let n = a.len() as int;
    if mergeable(a) {
        let (p, i) = choose|p: int, i: int| #[trigger] neighbours(a, p, i) && a[p] == a[i];
        assert(neighbours(b, n - 1 - i, n - 1 - p)) by {
            assert forall|j: int| n - 1 - i < j < n - 1 - p implies b[j] is None by {
                assert(a[n - 1 - j] is None);
            }
        }
    }
    if mergeable(b) {
        let (p, i) = choose|p: int, i: int| #[trigger] neighbours(b, p, i) && b[p] == b[i];
        assert(neighbours(a, n - 1 - i, n - 1 - p)) by {
            assert forall|j: int| n - 1 - i < j < n - 1 - p implies a[j] is None by {
                assert(b[n - 1 - j] is None);
                assert(b[n - 1 - j] == a[n - 1 - (n - 1 - j)]);
            }
            assert(b[i] == a[n - 1 - i]);
            assert(b[p] == a[n - 1 - p]);
        }
        assert(b[i] == a[n - 1 - i]);
        assert(b[p] == a[n - 1 - p]);
    }
}

/// A line without an empty cell stays as it is under a move exactly where
/// it cannot merge.
pub(crate) proof fn lemma_full_line_fixed(a: Seq<Cell>)
    requires
        full_line(a),
    ensures
        slid(a) == a <==> !mergeable(a),
{
    let t = tiles(a);
    lemma_tiles_full(a);
    lemma_pairs_none(t);
    lemma_fixed_line(a);
    assert(compact(a));
    if mergeable(a) {
        let (p, i) = choose|p: int, i: int| #[trigger] neighbours(a, p, i) && a[p] == a[i];
        if i > p + 1 {
            assert(a[p + 1] is None);
        }
        assert(a[p] == Some(t[p]));
        assert(a[p + 1] == Some(t[p + 1]));
        assert(t[p] == t[p + 1]);
    }
    if pairs(t) != 0 {
        let (p, q) = choose|p: int, q: int|
            0 <= p && q == p + 1 && q < t.len() && #[trigger] t[p] == #[trigger] t[q];
        assert(a[p] == Some(t[p]));
        assert(a[q] == Some(t[q]));
        assert(neighbours(a, p, q));
    }
}

/// A line that one move leaves as it is stays so under any number of moves.
pub(crate) proof fn lemma_fixed_stays(a: Seq<Cell>, n: nat)
    requires
        slid(a) == a,
    ensures
        slid_times(a, n) == a,
    decreases n,
{
    if n > 0 {
        lemma_fixed_stays(a, (n - 1) as nat);
    }
}

/// The unrest of a line is at most its length.
pub(crate) proof fn lemma_unrest_bound(a: Seq<Cell>)
    ensures
        unrest(a) <= a.len(),
{
    lemma_tiles_len(a);
    lemma_tiles_full(a);
}

/// A line of unrest at most one is left as it is by a move, and a move that
/// changes a line lowers its unrest.
pub(crate) proof fn lemma_unrest_falls(a: Seq<Cell>)
    ensures
        unrest(a) <= 1 ==> slid(a) == a,
        slid(a) != a ==> unrest(slid(a)) < unrest(a),
{
    let t = tiles(a);
    lemma_fixed_line(a);
    lemma_merged_len(t);
    if unrest(a) <= 1 {
        if t.len() == 0 {
            lemma_tiles_none(a);
        } else {
            assert(t.skip(1).len() == 0);
        }
    }
}

/// After as many moves as its unrest, less one, a line has come to rest.
pub(crate) proof fn lemma_slid_settles(a: Seq<Cell>, n: nat)
    requires
        unrest(a) <= n + 1,
    ensures
        slid(slid_times(a, n)) == slid_times(a, n),
    decreases n,
{
    lemma_unrest_falls(a);
    if slid(a) == a {
        lemma_fixed_stays(a, n);
    } else {
        lemma_slid_settles(slid(a), (n - 1) as nat);
    }
}

/// Moves in one direction bring a line to rest: after one move less than it
/// has cells, or more, a further move changes nothing.
pub(crate) proof fn lemma_line_settles(a: Seq<Cell>, n: nat)
    requires
        n + 1 >= a.len(),
    ensures
        slid(slid_times(a, n)) == slid_times(a, n),
{
    lemma_unrest_bound(a);
    lemma_slid_settles(a, n);
}

/// Where the tile of cell `p` has its nearest tile in cell `i`, the tiles
/// from `p` on are these two and then those behind cell `i`.
pub(crate) proof fn lemma_tiles_two(a: Seq<Cell>, p: int, i: int)
    requires
        0 <= p < i < a.len(),
        a[p] is Some,
        a[i] is Some,
        forall|j: int| p < j < i ==> a[j] is None,
    ensures
        tiles(a.skip(p)) == seq![a[p]->0] + (seq![a[i]->0] + tiles(a.skip(i + 1))),
{
    lemma_tiles_from(a, p);
    lemma_tiles_gap(a, p + 1, i);
    lemma_tiles_from(a, i);
}

/// What one step of the merge pass leaves to be done, where the tile of cell
/// `p` meets an equal tile in cell `i` with only empty cells between them.
pub(crate) proof fn lemma_merge_step_pair(a: Seq<Cell>, p: int, i: int, x: nat)
    requires
        0 <= p < i < a.len(),
        a[p] == Some(x),
        a[i] == Some(x),
        forall|j: int| p < j < i ==> a[j] is None,
    ensures
        ({
            let b = a.update(p, Some(2 * x)).update(i, None);
            &&& tiles(b.take(p + 1)) + merged(tiles(b.skip(p + 1))) == tiles(a.take(p)) + merged(
                tiles(a.skip(p)),
            )
            &&& score(tiles(a.skip(p))) == 2 * x + score(tiles(b.skip(p + 1)))
            &&& pairs(tiles(a.skip(p))) == 1 + pairs(tiles(b.skip(p + 1)))
        }),
{
    let b = a.update(p, Some(2 * x)).update(i, None);
    let rest = tiles(a.skip(i + 1));
    // before the step: x, x, and the rest
    lemma_tiles_two(a, p, i);
    lemma_merged_pair(x, rest);
    // after the step: the doubled tile is done, the rest is still to do
    assert(b.take(p) =~= a.take(p));
    lemma_tiles_upto(b, p);
    lemma_tiles_gap(b, p + 1, i + 1);
    assert(b.skip(i + 1) =~= a.skip(i + 1));
    assert((tiles(a.take(p)) + seq![2 * x]) + merged(rest) =~= tiles(a.take(p)) + (seq![2 * x]
        + merged(rest)));
}

/// What one step of the merge pass leaves to be done, where cell `p` is
/// empty or its tile meets no equal tile: `i` is the next occupied cell
/// behind `p`, or the length of the line.
pub(crate) proof fn lemma_merge_step_keep(a: Seq<Cell>, p: int, i: int)
    requires
        0 <= p < i <= a.len(),
        forall|j: int| p < j < i ==> a[j] is None,
        a[p] is Some && i < a.len() ==> a[i] is Some && a[i] != a[p],
    ensures
        tiles(a.take(p + 1)) + merged(tiles(a.skip(p + 1))) == tiles(a.take(p)) + merged(
            tiles(a.skip(p)),
        ),
        score(tiles(a.skip(p))) == score(tiles(a.skip(p + 1))),
        pairs(tiles(a.skip(p))) == pairs(tiles(a.skip(p + 1))),
{
    lemma_tiles_from(a, p);
    lemma_tiles_upto(a, p);
    match a[p] {
        None => {},
        Some(x) => {
            let r = tiles(a.skip(p + 1));
            lemma_tiles_gap(a, p + 1, i);
            if i < a.len() {
                lemma_tiles_from(a, i);
                assert(r[0] == a[i]->0);
            } else {
                assert(a.skip(i) =~= Seq::<Cell>::empty());
            }
            lemma_merged_keep(x, r);
            assert((tiles(a.take(p)) + seq![x]) + merged(r) =~= tiles(a.take(p)) + (seq![x]
                + merged(r)));
        },
    }
}

/// A line of at most one cell has nothing to merge.
pub(crate) proof fn lemma_merge_short(a: Seq<Cell>)
    requires
        a.len() <= 1,
    ensures
        merged(tiles(a)) == tiles(a),
        score(tiles(a)) == 0,
        pairs(tiles(a)) == 0,
{
    lemma_tiles_len(a);
    let s = tiles(a);
    if s.len() == 1 {
        let r = Seq::<nat>::empty();
        assert(s =~= seq![s[0]] + r);
        lemma_merged_keep(s[0], r);
        assert(seq![s[0]] + merged(r) =~= s);
    }
}

/// The tiles of a line are those of its first `p` cells and then those of
/// the cells behind them.
pub(crate) proof fn lemma_tiles_split(a: Seq<Cell>, p: int)
    requires
        0 <= p <= a.len(),
    ensures
        tiles(a) == tiles(a.take(p)) + tiles(a.skip(p)),
{
    assert(a =~= a.take(p) + a.skip(p));
    lemma_tiles_concat(a.take(p), a.skip(p));
}

/// Sliding a tile from cell `i` into the empty cell `p` before it, over
/// empty cells only, keeps the tiles of the line and their order.
pub(crate) proof fn lemma_compact_step(a: Seq<Cell>, p: int, i: int)
    requires
        0 <= p < i < a.len(),
        a[i] is Some,
        forall|j: int| p <= j < i ==> a[j] is None,
    ensures
        tiles(a.update(p, a[i]).update(i, None)) == tiles(a),
{
    let b = a.update(p, a[i]).update(i, None);
    let v = a[i]->0;
    let rest = tiles(a.skip(i + 1));
    assert(tiles(a.skip(p)) == seq![v] + rest) by {
        lemma_tiles_gap(a, p, i);
        lemma_tiles_from(a, i);
    }
    assert(tiles(b.skip(p)) == seq![v] + rest) by {
        lemma_tiles_from(b, p);
        lemma_tiles_gap(b, p + 1, i + 1);
        assert(b.skip(i + 1) =~= a.skip(i + 1));
    }
    assert(b.take(p) =~= a.take(p));
    lemma_tiles_split(a, p);
    lemma_tiles_split(b, p);
}

} // verus!
