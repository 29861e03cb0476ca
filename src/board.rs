//! The flattened grid: tile `(x, y)` of a `w`-wide board sits at index
//! `y * w + x`, and the neighbourhood walk shared by generation and opening.
use vstd::prelude::*;

use crate::tile::{is_mine, Tile, TileValue};

verus! {

/// `(a, b)` lies on a `w` by `h` board.
pub open spec fn in_bounds(w: int, h: int, a: int, b: int) -> bool {
    0 <= a < w && 0 <= b < h
}

/// `(a, b)` is `(x, y)` or one of its eight surrounding cells.
pub open spec fn near(x: int, y: int, a: int, b: int) -> bool {
    x - 1 <= a <= x + 1 && y - 1 <= b <= y + 1
}

/// Index in the flattened board of the tile at `(x, y)`.
pub open spec fn cell_index(w: int, x: int, y: int) -> int {
    y * w + x
}

pub proof fn lemma_cell_index(w: int, h: int, x: int, y: int)
    requires
        in_bounds(w, h, x, y),
    ensures
        0 <= cell_index(w, x, y) < w * h,
{
    assert(y * w <= (h - 1) * w) by (nonlinear_arith)
        requires
            0 <= y <= h - 1,
            w >= 0,
    ;
    assert((h - 1) * w + w == w * h) by (nonlinear_arith);
}

pub proof fn lemma_cell_index_unique(w: int, x1: int, y1: int, x2: int, y2: int)
    requires
        0 <= x1 < w,
        0 <= x2 < w,
    ensures
        cell_index(w, x1, y1) == cell_index(w, x2, y2) <==> (x1 == x2 && y1 == y2),
{
    assert(cell_index(w, x1, y1) == cell_index(w, x2, y2) ==> y1 == y2) by (nonlinear_arith)
        requires
            0 <= x1 < w,
            0 <= x2 < w,
    ;
}

/// The cells of column `x` at rows `y`, `y - 1` and `y + 1`, in that order,
/// those rows that lie on the board.
pub open spec fn row_cells(x: usize, y: usize, height: usize) -> Seq<(usize, usize)> {
    seq![(x, y)] + (if y > 0 {
        seq![(x, (y - 1) as usize)]
    } else {
        Seq::empty()
    }) + (if y + 1 < height {
        seq![(x, (y + 1) as usize)]
    } else {
        Seq::empty()
    })
}

/// The cells of `(x, y)`'s neighbourhood, itself included, column `x` first,
/// then `x - 1`, then `x + 1`.
pub open spec fn adjacent_cells(x: usize, y: usize, width: usize, height: usize) -> Seq<(usize, usize)> {
    row_cells(x, y, height) + (if x > 0 {
        row_cells((x - 1) as usize, y, height)
    } else {
        Seq::empty()
    }) + (if x + 1 < width {
        row_cells((x + 1) as usize, y, height)
    } else {
        Seq::empty()
    })
}

/// The neighbourhood lists each cell of the 3 by 3 square round `(x, y)` that
/// lies on the board, and each once.
pub proof fn lemma_adjacent_cells(x: usize, y: usize, width: usize, height: usize)
    requires
        x < width,
        y < height,
    ensures
        adjacent_cells(x, y, width, height).no_duplicates(),
        adjacent_cells(x, y, width, height).len() <= 9,
        forall|k: int|
            0 <= k < adjacent_cells(x, y, width, height).len() ==> in_bounds(
                width as int,
                height as int,
                #[trigger] adjacent_cells(x, y, width, height)[k].0 as int,
                adjacent_cells(x, y, width, height)[k].1 as int,
            ) && near(
                x as int,
                y as int,
                adjacent_cells(x, y, width, height)[k].0 as int,
                adjacent_cells(x, y, width, height)[k].1 as int,
            ),
        forall|a: usize, b: usize|
            in_bounds(width as int, height as int, a as int, b as int) && near(
                x as int,
                y as int,
                a as int,
                b as int,
            ) ==> #[trigger] adjacent_cells(x, y, width, height).contains((a, b)),
{
    let s = adjacent_cells(x, y, width, height);
    assert forall|a: usize, b: usize|
        in_bounds(width as int, height as int, a as int, b as int) && near(
            x as int,
            y as int,
            a as int,
            b as int,
        ) implies #[trigger] s.contains((a, b)) by {
        let r0 = row_cells(x, y, height);
        let rl = if x > 0 { row_cells((x - 1) as usize, y, height) } else { Seq::empty() };
        let rr = if x + 1 < width { row_cells((x + 1) as usize, y, height) } else { Seq::empty() };
        let r = if a == x { r0 } else if a + 1 == x { rl } else { rr };
        let off: int = if a == x { 0 } else if a + 1 == x { r0.len() as int } else { (r0.len() + rl.len()) as int };
        let j: int = if b == y { 0 } else if b + 1 == y { 1 } else if y > 0 { 2 } else { 1 };
        assert(r[j] == (a, b));
        assert(s[off + j] == (a, b));
    }
}

pub proof fn lemma_push_contains<A>(s: Seq<A>, e: A, c: A)
    ensures
        s.push(e).contains(c) <==> (s.contains(c) || c == e),
{
    if s.contains(c) {
        let j = choose|j: int| 0 <= j < s.len() && s[j] == c;
        assert(s.push(e)[j] == c);
    }
    if c == e {
        assert(s.push(e)[s.len() as int] == c);
    }
    if s.push(e).contains(c) {
        let j = choose|j: int| 0 <= j < s.len() + 1 && s.push(e)[j] == c;
        if j < s.len() {
            assert(s[j] == c);
        }
    }
}

/// Appends to `out` the cells of column `x` at rows `y`, `y - 1` and `y + 1`
/// that lie on the board.
pub fn for_adjacent_in_row(x: usize, y: usize, height: usize, out: &mut Vec<(usize, usize)>)
    requires
        y < height,
    ensures
        final(out)@ == old(out)@ + row_cells(x, y, height),
{
    out.push((x, y));
    if y > 0 {
        out.push((x, y - 1));
    }
    if y < height - 1 {
        out.push((x, y + 1));
    }
    assert(final(out)@ =~= old(out)@ + row_cells(x, y, height));
}

/// The cells of `(x, y)`'s neighbourhood on a `width` by `height` board,
/// `(x, y)` itself included.
pub fn for_adjacent(x: usize, y: usize, width: usize, height: usize) -> (r: Vec<(usize, usize)>)
    requires
        x < width,
        y < height,
    ensures
        r@ == adjacent_cells(x, y, width, height),
{
    let mut r: Vec<(usize, usize)> = Vec::new();
    for_adjacent_in_row(x, y, height, &mut r);
    if x > 0 {
        for_adjacent_in_row(x - 1, y, height, &mut r);
    }
    if x < width - 1 {
        for_adjacent_in_row(x + 1, y, height, &mut r);
    }
    assert(r@ =~= adjacent_cells(x, y, width, height));
    r
}


/// The tile at `(x, y)` of a flattened board `w` wide.
pub open spec fn cell(tiles: Seq<Tile>, w: int, x: int, y: int) -> Tile {
    tiles[cell_index(w, x, y)]
}

/// One if `(a, b)` lies on the board and holds a mine, else zero.
pub open spec fn mine_at(tiles: Seq<Tile>, w: int, h: int, a: int, b: int) -> int {
    if in_bounds(w, h, a, b) && is_mine(cell(tiles, w, a, b)) {
        1
    } else {
        0
    }
}

/// How many of the eight cells round `(x, y)` hold a mine.
pub open spec fn adjacent_mines(tiles: Seq<Tile>, w: int, h: int, x: int, y: int) -> int {
    mine_at(tiles, w, h, x - 1, y - 1) + mine_at(tiles, w, h, x, y - 1) + mine_at(
        tiles,
        w,
        h,
        x + 1,
        y - 1,
    ) + mine_at(tiles, w, h, x - 1, y) + mine_at(tiles, w, h, x + 1, y) + mine_at(
        tiles,
        w,
        h,
        x - 1,
        y + 1,
    ) + mine_at(tiles, w, h, x, y + 1) + mine_at(tiles, w, h, x + 1, y + 1)
}

/// The tile at `(x, y)`, if it lies on the board and holds no mine, holds
/// the number of mines round it.
pub open spec fn count_ok_at(tiles: Seq<Tile>, w: int, h: int, x: int, y: int) -> bool {
    in_bounds(w, h, x, y) && !is_mine(cell(tiles, w, x, y)) ==> cell(tiles, w, x, y).value
        == TileValue::Empty(adjacent_mines(tiles, w, h, x, y) as u32)
}

/// Every tile without a mine holds the number of mines round it.
pub open spec fn counts_ok(tiles: Seq<Tile>, w: int, h: int) -> bool {
    forall|x: int, y: int| #[trigger] count_ok_at(tiles, w, h, x, y)
}

/// How many tiles of `s` satisfy `f`.
pub open spec fn count_where(s: Seq<Tile>, f: spec_fn(Tile) -> bool) -> nat
    decreases s.len(),
{
    if s.len() == 0 {
        0
    } else {
        count_where(s.drop_last(), f) + (if f(s.last()) {
            1nat
        } else {
            0nat
        })
    }
}

pub open spec fn mine_pred() -> spec_fn(Tile) -> bool {
    |t: Tile| is_mine(t)
}

pub open spec fn mine_total(s: Seq<Tile>) -> nat {
    count_where(s, mine_pred())
}

pub open spec fn empty_total(s: Seq<Tile>) -> nat {
    count_where(s, |t: Tile| t.value is Empty)
}

pub proof fn lemma_count_update(s: Seq<Tile>, f: spec_fn(Tile) -> bool, i: int, t: Tile)
    requires
        0 <= i < s.len(),
    ensures
        count_where(s.update(i, t), f) + (if f(s[i]) {
            1int
        } else {
            0int
        }) == count_where(s, f) + (if f(t) {
            1int
        } else {
            0int
        }),
    decreases s.len(),
{
    if i == s.len() - 1 {
        assert(s.update(i, t).drop_last() =~= s.drop_last());
    } else {
        assert(s.update(i, t).drop_last() =~= s.drop_last().update(i, t));
        lemma_count_update(s.drop_last(), f, i, t);
    }
}

pub proof fn lemma_count_same(s1: Seq<Tile>, s2: Seq<Tile>, f: spec_fn(Tile) -> bool)
    requires
        s1.len() == s2.len(),
        forall|i: int| 0 <= i < s1.len() ==> f(s1[i]) == f(s2[i]),
    ensures
        count_where(s1, f) == count_where(s2, f),
    decreases s1.len(),
{
    if s1.len() > 0 {
        lemma_count_same(s1.drop_last(), s2.drop_last(), f);
    }
}

/// Every tile is a mine or an empty tile, so the two totals make up the board.
pub proof fn lemma_mine_and_empty_totals(s: Seq<Tile>)
    ensures
        mine_total(s) + empty_total(s) == s.len(),
    decreases s.len(),
{
    if s.len() > 0 {
        lemma_mine_and_empty_totals(s.drop_last());
    }
}

} // verus!
