//! The game: a board of tiles, its generation, and the player's moves.
use vstd::prelude::*;

use crate::board::{
    count_ok_at,
    mine_at,
    adjacent_cells, adjacent_mines, cell, cell_index, count_where, counts_ok, empty_total,
    for_adjacent, in_bounds, lemma_adjacent_cells, lemma_cell_index, lemma_cell_index_unique,
    lemma_count_same, lemma_count_update, lemma_mine_and_empty_totals, lemma_push_contains, mine_pred,
    mine_total, near,
};
use crate::config::{Config, ConfigError};
use crate::tile::{cycled, incremented, is_mine, is_opened, Tile, TileMarking, TileState, TileValue};

verus! {

/// Relies on rand's `thread_rng().gen_range(0..n)`: a number drawn from
/// `0..n`. That call panics on an empty range, hence `n > 0`.
#[verifier::external_body]
fn random_below(n: usize) -> (r: usize)
    requires
        n > 0,
    ensures
        r < n,
{
    rand::Rng::gen_range(&mut rand::thread_rng(), 0..n)
}

proof fn lemma_cell_of_index(w: int, h: int, p: int)
    requires
        w > 0,
        0 <= p < w * h,
    ensures
        in_bounds(w, h, p % w, p / w),
        cell_index(w, p % w, p / w) == p,
{
    vstd::arithmetic::div_mod::lemma_fundamental_div_mod(p, w);
    vstd::arithmetic::div_mod::lemma_mod_pos_bound(p, w);
    let q = p / w;
    let r = p % w;
    assert(0 <= q < h) by (nonlinear_arith)
        requires
            p == w * q + r,
            0 <= r < w,
            0 <= p < w * h,
    ;
    assert(cell_index(w, r, q) == p) by (nonlinear_arith)
        requires
            p == w * q + r,
    ;
}

/// The tile a board holds at `(a, b)` once a mine is put at `(mx, my)`.
pub open spec fn after_mine(s: Seq<Tile>, w: int, mx: int, my: int, a: int, b: int) -> Tile {
    if a == mx && b == my {
        Tile { value: TileValue::Mine, state: cell(s, w, a, b).state }
    } else if near(mx, my, a, b) {
        incremented(cell(s, w, a, b))
    } else {
        cell(s, w, a, b)
    }
}

proof fn lemma_mine_at_after(s0: Seq<Tile>, s2: Seq<Tile>, w: int, h: int, mx: int, my: int, a: int, b: int)
    requires
        in_bounds(w, h, mx, my),
        forall|a: int, b: int|
            in_bounds(w, h, a, b) ==> #[trigger] cell(s2, w, a, b) == after_mine(s0, w, mx, my, a, b),
    ensures
        mine_at(s2, w, h, a, b) == mine_at(s0, w, h, a, b) + (if a == mx && b == my && !is_mine(cell(s0, w, a, b)) {
            1int
        } else {
            0int
        }),
{
    if in_bounds(w, h, a, b) {
        assert(cell(s2, w, a, b) == after_mine(s0, w, mx, my, a, b));
    }
}

proof fn lemma_counts_after_mine(s0: Seq<Tile>, s2: Seq<Tile>, w: int, h: int, mx: int, my: int)
    requires
        counts_ok(s0, w, h),
        in_bounds(w, h, mx, my),
        !is_mine(cell(s0, w, mx, my)),
        forall|a: int, b: int|
            in_bounds(w, h, a, b) ==> #[trigger] cell(s2, w, a, b) == after_mine(s0, w, mx, my, a, b),
    ensures
        counts_ok(s2, w, h),
{
    assert forall|x: int, y: int| #[trigger] count_ok_at(s2, w, h, x, y) by {
        if in_bounds(w, h, x, y) {
        assert(count_ok_at(s0, w, h, x, y));
        assert(cell(s2, w, x, y) == after_mine(s0, w, mx, my, x, y));
        lemma_mine_at_after(s0, s2, w, h, mx, my, x - 1, y - 1);
        lemma_mine_at_after(s0, s2, w, h, mx, my, x, y - 1);
        lemma_mine_at_after(s0, s2, w, h, mx, my, x + 1, y - 1);
        lemma_mine_at_after(s0, s2, w, h, mx, my, x - 1, y);
        lemma_mine_at_after(s0, s2, w, h, mx, my, x + 1, y);
        lemma_mine_at_after(s0, s2, w, h, mx, my, x - 1, y + 1);
        lemma_mine_at_after(s0, s2, w, h, mx, my, x, y + 1);
        lemma_mine_at_after(s0, s2, w, h, mx, my, x + 1, y + 1);
        }
    }
}

/// Puts a mine at `(mx, my)`, which holds none, and raises the count of each
/// tile round it.
fn place_mine(tiles: &mut Vec<Tile>, w: usize, h: usize, mx: usize, my: usize)
    requires
        w >= 1,
        h >= 1,
        w * h <= usize::MAX,
        old(tiles)@.len() == w * h,
        in_bounds(w as int, h as int, mx as int, my as int),
        counts_ok(old(tiles)@, w as int, h as int),
        !is_mine(cell(old(tiles)@, w as int, mx as int, my as int)),
    ensures
        final(tiles)@.len() == old(tiles)@.len(),
        counts_ok(final(tiles)@, w as int, h as int),
        mine_total(final(tiles)@) == mine_total(old(tiles)@) + 1,
        forall|i: int| 0 <= i < old(tiles)@.len() ==> #[trigger] final(tiles)@[i].state == old(tiles)@[i].state,
        forall|i: int|
            0 <= i < old(tiles)@.len() ==> is_mine(#[trigger] final(tiles)@[i]) == (is_mine(old(tiles)@[i]) || i
                == cell_index(w as int, mx as int, my as int)),
        forall|a: int, b: int|
            in_bounds(w as int, h as int, a, b) ==> #[trigger] cell(final(tiles)@, w as int, a, b)
                == after_mine(old(tiles)@, w as int, mx as int, my as int, a, b),
{
    let ghost s0 = tiles@;
    proof {
        lemma_cell_index(w as int, h as int, mx as int, my as int);
    }
    let p = my * w + mx;
    let mut t = tiles[p];
    t.set_mine();
    tiles.set(p, t);
    let ghost s1 = tiles@;
    proof {
        lemma_count_update(s0, mine_pred(), p as int, t);
    }
    let cells = for_adjacent(mx, my, w, h);
    proof {
        lemma_adjacent_cells(mx, my, w, h);
    }
    let mut k: usize = 0;
    while k < cells.len()
        invariant
            w >= 1,
            h >= 1,
            w * h <= usize::MAX,
            tiles@.len() == w * h,
            s1.len() == w * h,
            s0.len() == w * h,
            0 <= cell_index(w as int, mx as int, my as int) < w * h,
            in_bounds(w as int, h as int, mx as int, my as int),
            counts_ok(s0, w as int, h as int),
            s1 == s0.update(cell_index(w as int, mx as int, my as int), t),
            t.value == TileValue::Mine,
            cells@ == adjacent_cells(mx, my, w, h),
            cells@.no_duplicates(),
            forall|j: int|
                0 <= j < cells@.len() ==> in_bounds(
                    w as int,
                    h as int,
                    #[trigger] cells@[j].0 as int,
                    cells@[j].1 as int,
                ) && near(mx as int, my as int, cells@[j].0 as int, cells@[j].1 as int),
            0 <= k <= cells@.len(),
            forall|i: int|
                0 <= i < s1.len() ==> is_mine(#[trigger] tiles@[i]) == is_mine(s1[i])
                    && tiles@[i].state == s1[i].state,
            forall|a: int, b: int|
                in_bounds(w as int, h as int, a, b) ==> #[trigger] cell(tiles@, w as int, a, b) == (
                if cells@.take(k as int).contains((a as usize, b as usize)) {
                    incremented(cell(s1, w as int, a, b))
                } else {
                    cell(s1, w as int, a, b)
                }),
        decreases cells@.len() - k,
    {
        let (a, b) = cells[k];
        proof {
            lemma_cell_index(w as int, h as int, a as int, b as int);
            if cells@.take(k as int).contains((a, b)) {
                let j = choose|j: int| 0 <= j < k && cells@.take(k as int)[j] == (a, b);
                assert(cells@[j] == cells@[k as int]);
            }
            if !(a == mx && b == my) {
                lemma_cell_index_unique(w as int, a as int, b as int, mx as int, my as int);
            }
            assert(cell(tiles@, w as int, a as int, b as int) == cell(s1, w as int, a as int, b as int));
            if !(a == mx && b == my) {
                assert(count_ok_at(s0, w as int, h as int, a as int, b as int));
                assert(cell(s1, w as int, a as int, b as int) == cell(s0, w as int, a as int, b as int));
                assert(0 <= adjacent_mines(s0, w as int, h as int, a as int, b as int) <= 8);
            }
        }
        let ghost before = tiles@;
        let q = b * w + a;
        let mut u = tiles[q];
        u.inc_mine_count();
        tiles.set(q, u);
        proof {
            assert(cells@.take(k + 1) =~= cells@.take(k as int).push((a, b)));
            assert forall|a2: int, b2: int| in_bounds(w as int, h as int, a2, b2) implies #[trigger] cell(
                tiles@,
                w as int,
                a2,
                b2,
            ) == (if cells@.take(k + 1).contains((a2 as usize, b2 as usize)) {
                incremented(cell(s1, w as int, a2, b2))
            } else {
                cell(s1, w as int, a2, b2)
            }) by {
                lemma_cell_index(w as int, h as int, a2, b2);
                lemma_cell_index_unique(w as int, a2, b2, a as int, b as int);
                lemma_push_contains(cells@.take(k as int), (a, b), (a2 as usize, b2 as usize));
                if !(a2 == a && b2 == b) {
                    assert(cell(tiles@, w as int, a2, b2) == cell(before, w as int, a2, b2));
                }
            }
        }
        k = k + 1;
    }
    proof {
        assert(cells@.take(k as int) =~= cells@);
        assert forall|a: int, b: int| in_bounds(w as int, h as int, a, b) implies #[trigger] cell(
            tiles@,
            w as int,
            a,
            b,
        ) == after_mine(s0, w as int, mx as int, my as int, a, b) by {
            lemma_cell_index(w as int, h as int, a, b);
            if !(a == mx && b == my) {
                lemma_cell_index_unique(w as int, a, b, mx as int, my as int);
            }
            if cells@.contains((a as usize, b as usize)) {
                let j = choose|j: int| 0 <= j < cells@.len() && cells@[j] == (a as usize, b as usize);
                assert(near(mx as int, my as int, cells@[j].0 as int, cells@[j].1 as int));
            }
        }
        lemma_counts_after_mine(s0, tiles@, w as int, h as int, mx as int, my as int);
        lemma_count_same(s1, tiles@, mine_pred());
    }
}


/// The first `m` distinct values among `draws[0..j]`, in the order drawn:
/// a draw equal to an earlier one, or past the `m`-th, is skipped.
pub open spec fn chosen(draws: Seq<usize>, m: nat, j: nat) -> Seq<usize>
    decreases j,
{
    if j == 0 {
        Seq::empty()
    } else {
        let s = chosen(draws, m, (j - 1) as nat);
        if s.len() < m && !s.contains(draws[j - 1]) {
            s.push(draws[j - 1])
        } else {
            s
        }
    }
}

/// Draws with no value repeated are all chosen, up to `m` of them.
proof fn lemma_chosen_distinct(draws: Seq<usize>, m: nat, j: nat)
    requires
        draws.no_duplicates(),
        j <= draws.len(),
        j <= m,
    ensures
        chosen(draws, m, j) == draws.take(j as int),
    decreases j,
{
    if j > 0 {
        lemma_chosen_distinct(draws, m, (j - 1) as nat);
        let s = draws.take(j - 1);
        if s.contains(draws[j - 1]) {
            let i = choose|i: int| 0 <= i < s.len() && s[i] == draws[j - 1];
            assert(draws[i] == draws[j - 1]);
        }
        assert(draws.take(j as int) =~= s.push(draws[j - 1]));
    }
}

/// A freshly generated board: `mines` mines, every other tile holding the
/// count of mines round it, every tile closed and unmarked.
pub open spec fn fresh_board(tiles: Seq<Tile>, config: Config) -> bool {
    &&& tiles.len() == config.area()
    &&& counts_ok(tiles, config.x as int, config.y as int)
    &&& mine_total(tiles) == config.mines
    &&& forall|i: int|
        0 <= i < tiles.len() ==> (#[trigger] tiles[i]).state == TileState::Closed(TileMarking::Unmarked)
}

/// Builds a board for a valid config from `draws`, indices into the
/// row-major board: each draw puts a mine at `(d % x, d / x)`, a draw that
/// lands on a mine is drawn again (skipped), and placing stops after the
/// `mines`-th mine. The draws must hold at least `mines` distinct values.
#[verifier::rlimit(80)]
pub fn generate_board(config: Config, draws: &Vec<usize>) -> (tiles: Vec<Tile>)
    requires
        config.valid(),
        forall|j: int| 0 <= j < draws@.len() ==> #[trigger] draws@[j] < config.area(),
        chosen(draws@, config.mines as nat, draws@.len()).len() == config.mines,
    ensures
        fresh_board(tiles@, config),
        forall|i: int|
            0 <= i < tiles@.len() ==> is_mine(#[trigger] tiles@[i]) == chosen(
                draws@,
                config.mines as nat,
                draws@.len(),
            ).contains(i as usize),
{
    let w = config.x;
    let h = config.y;
    let n = config.tile_count();
    let mut tiles: Vec<Tile> = Vec::new();
    let mut i: usize = 0;
    while i < n
        invariant
            n == w * h,
            i <= n,
            tiles@.len() == i,
            mine_total(tiles@) == 0,
            forall|j: int| 0 <= j < i ==> #[trigger] tiles@[j] == Tile::spec_new(),
        decreases n - i,
    {
        let ghost before = tiles@;
        tiles.push(Tile::new());
        proof {
            assert(tiles@.drop_last() =~= before);
        }
        i = i + 1;
    }
    proof {
        assert forall|x: int, y: int| #[trigger] count_ok_at(tiles@, w as int, h as int, x, y) by {
            if in_bounds(w as int, h as int, x, y) {
                lemma_cell_index(w as int, h as int, x, y);
                assert forall|a: int, b: int| in_bounds(w as int, h as int, a, b) implies !is_mine(
                    #[trigger] cell(tiles@, w as int, a, b),
                ) by {
                    lemma_cell_index(w as int, h as int, a, b);
                }
            }
        }
    }
    let mut k: usize = 0;
    let mut j: usize = 0;
    while j < draws.len()
        invariant
            config.valid(),
            w == config.x,
            h == config.y,
            n == w * h,
            forall|d: int| 0 <= d < draws@.len() ==> #[trigger] draws@[d] < config.area(),
            j <= draws@.len(),
            k == chosen(draws@, config.mines as nat, j as nat).len(),
            k <= config.mines,
            tiles@.len() == n,
            counts_ok(tiles@, w as int, h as int),
            mine_total(tiles@) == k,
            forall|i: int|
                0 <= i < tiles@.len() ==> (#[trigger] tiles@[i]).state == TileState::Closed(
                    TileMarking::Unmarked,
                ),
            forall|i: int|
                0 <= i < tiles@.len() ==> is_mine(#[trigger] tiles@[i]) == chosen(
                    draws@,
                    config.mines as nat,
                    j as nat,
                ).contains(i as usize),
        decreases draws@.len() - j,
    {
        let d = draws[j];
        let ghost s = chosen(draws@, config.mines as nat, j as nat);
        proof {
            lemma_cell_of_index(w as int, h as int, d as int);
            assert(is_mine(tiles@[d as int]) == s.contains(d));
        }
        if k < config.mines {
            if let TileValue::Empty(_) = tiles[d].value {
                let mx = d % w;
                let my = d / w;
                place_mine(&mut tiles, w, h, mx, my);
                k = k + 1;
                proof {
                    assert forall|i: int| 0 <= i < tiles@.len() implies is_mine(#[trigger] tiles@[i])
                        == s.push(d).contains(i as usize) by {
                        lemma_push_contains(s, d, i as usize);
                    }
                }
            }
        }
        j = j + 1;
    }
    proof {
        assert(chosen(draws@, config.mines as nat, draws@.len()).len() == config.mines);
    }
    tiles
}

proof fn lemma_mine_at_same_values(s1: Seq<Tile>, s2: Seq<Tile>, w: int, h: int, a: int, b: int)
    requires
        s1.len() == w * h,
        s2.len() == w * h,
        forall|i: int| 0 <= i < s1.len() ==> (#[trigger] s1[i]).value == s2[i].value,
    ensures
        mine_at(s1, w, h, a, b) == mine_at(s2, w, h, a, b),
{
    if in_bounds(w, h, a, b) {
        lemma_cell_index(w, h, a, b);
    }
}

/// The counts stay right while no tile's value changes.
proof fn lemma_counts_same_values(s1: Seq<Tile>, s2: Seq<Tile>, w: int, h: int)
    requires
        s1.len() == w * h,
        s2.len() == w * h,
        counts_ok(s1, w, h),
        forall|i: int| 0 <= i < s1.len() ==> (#[trigger] s1[i]).value == s2[i].value,
    ensures
        counts_ok(s2, w, h),
{
    assert forall|x: int, y: int| #[trigger] count_ok_at(s2, w, h, x, y) by {
        assert(count_ok_at(s1, w, h, x, y));
        if in_bounds(w, h, x, y) {
            lemma_cell_index(w, h, x, y);
            lemma_mine_at_same_values(s1, s2, w, h, x - 1, y - 1);
            lemma_mine_at_same_values(s1, s2, w, h, x, y - 1);
            lemma_mine_at_same_values(s1, s2, w, h, x + 1, y - 1);
            lemma_mine_at_same_values(s1, s2, w, h, x - 1, y);
            lemma_mine_at_same_values(s1, s2, w, h, x + 1, y);
            lemma_mine_at_same_values(s1, s2, w, h, x - 1, y + 1);
            lemma_mine_at_same_values(s1, s2, w, h, x, y + 1);
            lemma_mine_at_same_values(s1, s2, w, h, x + 1, y + 1);
        }
    }
}

/// After `s` takes `t` at `(qx, qy)`, every other tile on the board is as it was.
proof fn lemma_cells_after_set(s: Seq<Tile>, w: int, h: int, qx: int, qy: int, t: Tile)
    requires
        s.len() == w * h,
        in_bounds(w, h, qx, qy),
    ensures
        forall|a: int, b: int|
            in_bounds(w, h, a, b) ==> #[trigger] cell(s.update(cell_index(w, qx, qy), t), w, a, b) == if a
                == qx && b == qy {
                t
            } else {
                cell(s, w, a, b)
            },
{
    assert forall|a: int, b: int| in_bounds(w, h, a, b) implies #[trigger] cell(
        s.update(cell_index(w, qx, qy), t),
        w,
        a,
        b,
    ) == if a == qx && b == qy {
        t
    } else {
        cell(s, w, a, b)
    } by {
        lemma_cell_index(w, h, a, b);
        lemma_cell_index(w, h, qx, qy);
        lemma_cell_index_unique(w, a, b, qx, qy);
    }
}

pub open spec fn closed_pred() -> spec_fn(Tile) -> bool {
    |t: Tile| !is_opened(t)
}

/// A way the opening of `p[0]` spreads over the board of `g` to
/// `p.last()`: a walk from cell to neighbouring cell, every cell on the board
/// and closed, every cell but the last an empty tile with no mine round it.
pub open spec fn cascade_path(g: Game, p: Seq<(int, int)>) -> bool {
    &&& p.len() >= 1
    &&& forall|i: int|
        0 <= i < p.len() ==> g.on_board(#[trigger] p[i].0, p[i].1) && !is_opened(
            g.tile_at(p[i].0, p[i].1),
        )
    &&& forall|i: int|
        0 <= i < p.len() - 1 ==> near(#[trigger] p[i].0, p[i].1, p[i + 1].0, p[i + 1].1) && g.tile_at(
            p[i].0,
            p[i].1,
        ).value == TileValue::Empty(0)
}

/// Opening `(x, y)` on `g` reveals `(a, b)`.
pub open spec fn reached(g: Game, x: int, y: int, a: int, b: int) -> bool {
    exists|p: Seq<(int, int)>| #[trigger] cascade_path(g, p) && p[0] == (x, y) && p.last() == (a, b)
}

/// Every cell of `g`'s board round `(a, b)` is opened.
pub open spec fn neighbours_opened(g: Game, a: int, b: int) -> bool {
    forall|c: int, d: int|
        g.on_board(c, d) && near(a, b, c, d) ==> is_opened(#[trigger] g.tile_at(c, d))
}

/// The tiles of `g1` are those of `g0`, each either as it was or opened
/// because opening `(x, y)` reaches it.
pub open spec fn opened_from(g0: Game, g1: Game, x: int, y: int) -> bool {
    &&& g1.spec_width() == g0.spec_width()
    &&& g1.spec_height() == g0.spec_height()
    &&& g1.spec_tiles().len() == g0.spec_tiles().len()
    &&& forall|i: int|
        0 <= i < g0.spec_tiles().len() ==> (#[trigger] g1.spec_tiles()[i]).value
            == g0.spec_tiles()[i].value
    &&& forall|a: int, b: int|
        g0.on_board(a, b) ==> (#[trigger] g1.tile_at(a, b)).state == g0.tile_at(a, b).state || (
        is_opened(g1.tile_at(a, b)) && reached(g0, x, y, a, b))
}

proof fn lemma_reached_step(g: Game, x: int, y: int, a: int, b: int, c: int, d: int)
    requires
        reached(g, x, y, a, b),
        g.tile_at(a, b).value == TileValue::Empty(0),
        near(a, b, c, d),
        g.on_board(c, d),
        !is_opened(g.tile_at(c, d)),
    ensures
        reached(g, x, y, c, d),
{
    let p = choose|p: Seq<(int, int)>| #[trigger] cascade_path(g, p) && p[0] == (x, y) && p.last() == (a, b);
    let q = p.push((c, d));
    assert forall|i: int| 0 <= i < q.len() - 1 implies near(#[trigger] q[i].0, q[i].1, q[i + 1].0, q[i + 1].1)
        && g.tile_at(q[i].0, q[i].1).value == TileValue::Empty(0) by {
        if i < p.len() - 1 {
            assert(near(p[i].0, p[i].1, p[i + 1].0, p[i + 1].1));
        }
    }
    assert forall|i: int| 0 <= i < q.len() implies g.on_board(#[trigger] q[i].0, q[i].1) && !is_opened(
        g.tile_at(q[i].0, q[i].1),
    ) by {
        if i < p.len() {
            assert(g.on_board(p[i].0, p[i].1));
        }
    }
    assert(cascade_path(g, q));
}

/// Opening a place off the board or an opened tile reaches nothing.
proof fn lemma_nothing_reached(g: Game, x: int, y: int)
    requires
        !g.on_board(x, y) || is_opened(g.tile_at(x, y)),
    ensures
        forall|a: int, b: int| !#[trigger] reached(g, x, y, a, b),
{
    assert forall|a: int, b: int| !#[trigger] reached(g, x, y, a, b) by {
        if reached(g, x, y, a, b) {
            let p = choose|p: Seq<(int, int)>| #[trigger] cascade_path(g, p) && p[0] == (x, y) && p.last() == (a, b);
            assert(g.on_board(p[0].0, p[0].1));
        }
    }
}

proof fn lemma_path_opened(g0: Game, g1: Game, x: int, y: int, p: Seq<(int, int)>, i: int)
    requires
        cascade_path(g0, p),
        0 <= i < p.len(),
        p[0] == (x, y),
        is_opened(g1.tile_at(x, y)),
        opened_from(g0, g1, x, y),
        forall|a: int, b: int|
            g0.on_board(a, b) && !is_opened(g0.tile_at(a, b)) && is_opened(#[trigger] g1.tile_at(a, b))
                && g0.tile_at(a, b).value == TileValue::Empty(0) ==> neighbours_opened(g1, a, b),
    ensures
        is_opened(g1.tile_at(p[i].0, p[i].1)),
    decreases i,
{
    if i > 0 {
        lemma_path_opened(g0, g1, x, y, p, i - 1);
        let (a, b) = p[i - 1];
        assert(near(p[i - 1].0, p[i - 1].1, p[i].0, p[i].1));
        assert(g0.on_board(p[i - 1].0, p[i - 1].1));
        assert(g0.on_board(p[i].0, p[i].1));
        assert(neighbours_opened(g1, a, b));
        assert(is_opened(g1.tile_at(p[i].0, p[i].1)));
    }
}

/// What `open(x, y)` does to `g0`, giving `g1` and `r`: `r` tells whether
/// the tile at `(x, y)` was a closed mine; no value changes; each tile that
/// opening `(x, y)` reaches is opened and every other tile stays as it was,
/// so a place off the board or an opened tile leaves the board unchanged.
pub open spec fn open_result(g0: Game, x: int, y: int, g1: Game, r: bool) -> bool {
    &&& opened_from(g0, g1, x, y)
    &&& r == (g0.on_board(x, y) && !is_opened(g0.tile_at(x, y)) && is_mine(g0.tile_at(x, y)))
    &&& forall|a: int, b: int|
        g0.on_board(a, b) ==> (#[trigger] g1.tile_at(a, b)).state == if reached(g0, x, y, a, b) {
            TileState::Opened
        } else {
            g0.tile_at(a, b).state
        }
    &&& !g0.on_board(x, y) || is_opened(g0.tile_at(x, y)) ==> g1.spec_tiles() == g0.spec_tiles()
}

/// What `cycle(x, y)` makes of `g`'s tiles.
pub open spec fn cycled_at(g: Game, x: int, y: int) -> Seq<Tile> {
    if g.on_board(x, y) {
        g.spec_tiles().update(cell_index(g.spec_width(), x, y), cycled(g.tile_at(x, y)))
    } else {
        g.spec_tiles()
    }
}

/// A game of Minesweeper: a `width` by `height` board of tiles, tile `(x, y)`
/// stored at index `y * width + x`.
pub struct Game {
    width: usize,
    height: usize,
    tiles: Vec<Tile>,
}

impl Game {
    pub closed spec fn spec_width(&self) -> int {
        self.width as int
    }

    pub closed spec fn spec_height(&self) -> int {
        self.height as int
    }

    /// The tiles, row after row.
    pub closed spec fn spec_tiles(&self) -> Seq<Tile> {
        self.tiles@
    }

    pub open spec fn on_board(&self, x: int, y: int) -> bool {
        in_bounds(self.spec_width(), self.spec_height(), x, y)
    }

    pub open spec fn tile_at(&self, x: int, y: int) -> Tile {
        cell(self.spec_tiles(), self.spec_width(), x, y)
    }

    /// A board of at least one tile whose mine counts are right.
    pub open spec fn wf(&self) -> bool {
        &&& self.spec_width() >= 1
        &&& self.spec_height() >= 1
        &&& self.spec_width() * self.spec_height() <= usize::MAX
        &&& self.spec_tiles().len() == self.spec_width() * self.spec_height()
        &&& counts_ok(self.spec_tiles(), self.spec_width(), self.spec_height())
    }

    /// The game `with_draws` and `new` give back for `config`: a fresh board
    /// of its size.
    pub open spec fn made_from(&self, config: Config) -> bool {
        &&& self.wf()
        &&& self.spec_width() == config.x
        &&& self.spec_height() == config.y
        &&& fresh_board(self.spec_tiles(), config)
    }

    /// Builds a game from a valid config, placing the mines as
    /// `generate_board` does with `draws`; any other config is refused.
    pub fn with_draws(config: Config, draws: &Vec<usize>) -> (r: Result<Game, ConfigError>)
        requires
            config.valid() ==> forall|j: int| 0 <= j < draws@.len() ==> #[trigger] draws@[j] < config.area(),
            config.valid() ==> chosen(draws@, config.mines as nat, draws@.len()).len() == config.mines,
        ensures
            r is Ok <==> config.valid(),
            r matches Ok(g) ==> g.made_from(config),
            r matches Ok(g) ==> forall|i: int|
                0 <= i < g.spec_tiles().len() ==> is_mine(#[trigger] g.spec_tiles()[i]) == chosen(
                    draws@,
                    config.mines as nat,
                    draws@.len(),
                ).contains(i as usize),
            r matches Err(e) ==> e.spec_config() == config,
    {
        if !Self::config_is_valid(config) {
            return Err(ConfigError::new(config));
        }
        let tiles = generate_board(config, draws);
        proof {
            let (x, y) = (config.x as int, config.y as int);
            assert(x >= 1 && y >= 1) by (nonlinear_arith)
                requires
                    x * y > 0,
                    x >= 0,
                    y >= 0,
            ;
        }
        Ok(Game { width: config.x, height: config.y, tiles })
    }

    /// Creates a game whose board is generated for `config`, the mines placed
    /// at random; a config with no tiles, an area past `usize`, or more mines
    /// than tiles is refused. A draw that hits a mine would have to be drawn
    /// again without bound, so instead the `k`-th mine is drawn from `0..n - k`
    /// and turned into the free index of that rank, kept in an ordered list:
    /// every placement stays equally likely, and no draw lands on a mine.
    pub fn new(config: Config) -> (r: Result<Game, ConfigError>)
        ensures
            r is Ok <==> config.valid(),
            r matches Ok(g) ==> g.made_from(config),
            r matches Err(e) ==> e.spec_config() == config,
    {
        if !Self::config_is_valid(config) {
            return Err(ConfigError::new(config));
        }
        let n = config.tile_count();
        let mut free: Vec<usize> = Vec::new();
        let mut i: usize = 0;
        while i < n
            invariant
                i <= n,
                free@.len() == i,
                forall|j: int| 0 <= j < i ==> #[trigger] free@[j] == j,
            decreases n - i,
        {
            free.push(i);
            i = i + 1;
        }
        let mut draws: Vec<usize> = Vec::new();
        let mut k: usize = 0;
        while k < config.mines
            invariant
                config.valid(),
                n == config.area(),
                k <= config.mines,
                draws@.len() == k,
                free@.len() + k == n,
                draws@.no_duplicates(),
                free@.no_duplicates(),
                forall|j: int| 0 <= j < draws@.len() ==> #[trigger] draws@[j] < n,
                forall|j: int| 0 <= j < free@.len() ==> #[trigger] free@[j] < n,
                forall|a: int, b: int|
                    0 <= a < draws@.len() && 0 <= b < free@.len() ==> #[trigger] draws@[a] != #[trigger] free@[b],
            decreases config.mines - k,
        {
            let r = random_below(n - k);
            let ghost f0 = free@;
            let ghost d0 = draws@;
            let d = free.remove(r);
            draws.push(d);
            proof {
                assert forall|j: int| 0 <= j < free@.len() implies #[trigger] free@[j] == if j < r {
                    f0[j]
                } else {
                    f0[j + 1]
                } by {}
                assert forall|a: int, b: int|
                    0 <= a < draws@.len() && 0 <= b < free@.len() implies #[trigger] draws@[a]
                    != #[trigger] free@[b] by {
                    if a < d0.len() {
                        assert(draws@[a] == d0[a]);
                    }
                }
                assert forall|a: int, b: int| 0 <= a < b < draws@.len() implies draws@[a] != draws@[b] by {
                    if b == d0.len() {
                        assert(d0[a] != f0[r as int]);
                    } else {
                        assert(d0[a] != d0[b]);
                    }
                }
                assert forall|a: int, b: int| 0 <= a < b < free@.len() implies free@[a] != free@[b] by {
                    let a1 = if a < r { a } else { a + 1 };
                    let b1 = if b < r { b } else { b + 1 };
                    assert(f0[a1] != f0[b1]);
                }
            }
            k = k + 1;
        }
        proof {
            lemma_chosen_distinct(draws@, config.mines as nat, config.mines as nat);
            assert(draws@.take(config.mines as int) =~= draws@);
        }
        Self::with_draws(config, &draws)
    }

    fn config_is_valid(config: Config) -> (r: bool)
        ensures
            r == config.valid(),
    {
        match config.x.checked_mul(config.y) {
            Some(n) => n > 0 && config.mines <= n,
            None => false,
        }
    }

    fn coordinate_in_bounds(&self, x: usize, y: usize) -> (r: bool)
        ensures
            r == self.on_board(x as int, y as int),
    {
        x < self.width && y < self.height
    }

    fn index_of(&self, x: usize, y: usize) -> (i: usize)
        requires
            self.wf(),
            self.on_board(x as int, y as int),
        ensures
            i == cell_index(self.spec_width(), x as int, y as int),
            i < self.spec_tiles().len(),
    {
        proof {
            lemma_cell_index(self.spec_width(), self.spec_height(), x as int, y as int);
        }
        y * self.width + x
    }

    pub fn width(&self) -> (r: usize)
        ensures
            r == self.spec_width(),
    {
        self.width
    }

    pub fn height(&self) -> (r: usize)
        ensures
            r == self.spec_height(),
    {
        self.height
    }

    /// The state and value of the tile at `(x, y)`, or `None` off the board.
    pub fn get_tile(&self, x: usize, y: usize) -> (r: Option<(TileState, TileValue)>)
        requires
            self.wf(),
        ensures
            r == if self.on_board(x as int, y as int) {
                Some((self.tile_at(x as int, y as int).state, self.tile_at(x as int, y as int).value))
            } else {
                None
            },
    {
        if !self.coordinate_in_bounds(x, y) {
            return None;
        }
        let t = self.tiles[self.index_of(x, y)];
        Some((t.state, t.value))
    }

    /// Opens the tile at `(x, y)` and tells whether it hid a mine. An empty
    /// tile with no mine round it opens its neighbours in turn, and so on
    /// through the whole region. A place off the board, or an opened tile,
    /// changes nothing.
    #[verifier::rlimit(80)]
    pub fn open(&mut self, x: usize, y: usize) -> (r: bool)
        requires
            old(self).wf(),
        ensures
            final(self).wf(),
            open_result(*old(self), x as int, y as int, *final(self), r),
    {
        if !self.coordinate_in_bounds(x, y) {
            proof {
                lemma_nothing_reached(*self, x as int, y as int);
            }
            return false;
        }
        let ghost g0 = *self;
        let w = self.width;
        let h = self.height;
        let i = self.index_of(x, y);
        let mut t = self.tiles[i];
        let v = match t.open() {
            None => {
                proof {
                    lemma_nothing_reached(*self, x as int, y as int);
                }
                return false;
            },
            Some(v) => v,
        };
        self.tiles.set(i, t);
        proof {
            lemma_cells_after_set(g0.tiles@, w as int, h as int, x as int, y as int, t);
            lemma_counts_same_values(g0.tiles@, self.tiles@, w as int, h as int);
            let p = seq![(x as int, y as int)];
            assert(cascade_path(g0, p));
            assert(reached(g0, x as int, y as int, x as int, y as int));
        }
        let mut stack: Vec<(usize, usize)> = Vec::new();
        match v {
            TileValue::Mine => {
                proof {
                    assert forall|a: int, b: int| g0.on_board(a, b) implies (#[trigger] self.tile_at(a, b)).state
                        == if reached(g0, x as int, y as int, a, b) {
                        TileState::Opened
                    } else {
                        g0.tile_at(a, b).state
                    } by {
                        if reached(g0, x as int, y as int, a, b) && !(a == x && b == y) {
                            let p = choose|p: Seq<(int, int)>| #[trigger] cascade_path(g0, p) && p[0] == (x as int, y as int)
                                && p.last() == (a, b);
                            assert(p.len() > 1);
                            assert(g0.tile_at(p[0].0, p[0].1).value == TileValue::Empty(0));
                        }
                    }
                }
                return true;
            },
            TileValue::Empty(n) => {
                if n == 0 {
                    stack.push((x, y));
                }
            },
        }
        proof {
            assert forall|a: int, b: int|
                g0.on_board(a, b) && !is_opened(g0.tile_at(a, b)) && is_opened(#[trigger] self.tile_at(a, b))
                    && g0.tile_at(a, b).value == TileValue::Empty(0) && !stack@.contains(
                    (a as usize, b as usize),
                ) implies neighbours_opened(*self, a, b) by {
                if !(a == x && b == y) {
                    assert(self.tile_at(a, b) == g0.tile_at(a, b));
                } else {
                    assert(stack@[0] == (x, y));
                }
            }
        }
        while stack.len() > 0
            invariant
                self.wf(),
                self.width == w,
                self.height == h,
                g0.wf(),
                g0.on_board(x as int, y as int),
                !is_opened(g0.tile_at(x as int, y as int)),
                !is_mine(g0.tile_at(x as int, y as int)),
                opened_from(g0, *self, x as int, y as int),
                is_opened(self.tile_at(x as int, y as int)),
                forall|j: int|
                    0 <= j < stack@.len() ==> g0.on_board(#[trigger] stack@[j].0 as int, stack@[j].1 as int)
                        && is_opened(self.tile_at(stack@[j].0 as int, stack@[j].1 as int))
                        && g0.tile_at(stack@[j].0 as int, stack@[j].1 as int).value == TileValue::Empty(0)
                        && reached(g0, x as int, y as int, stack@[j].0 as int, stack@[j].1 as int),
                forall|a: int, b: int|
                    g0.on_board(a, b) && !is_opened(g0.tile_at(a, b)) && is_opened(#[trigger] self.tile_at(a, b))
                        && g0.tile_at(a, b).value == TileValue::Empty(0) && !stack@.contains(
                        (a as usize, b as usize),
                    ) ==> neighbours_opened(*self, a, b),
            decreases 2 * count_where(self.tiles@, closed_pred()) + stack@.len(),
        {
            let ghost m0 = 2 * count_where(self.tiles@, closed_pred()) + stack@.len();
            let ghost st0 = stack@;
            let (tx, ty) = stack.pop().unwrap();
            proof {
                assert(st0 =~= stack@.push((tx, ty)));
            }
            let cells = for_adjacent(tx, ty, w, h);
            proof {
                lemma_adjacent_cells(tx, ty, w, h);
            }
            let mut k: usize = 0;
            while k < cells.len()
                invariant
                    self.wf(),
                    self.width == w,
                    self.height == h,
                    g0.wf(),
                    g0.on_board(x as int, y as int),
                    g0.on_board(tx as int, ty as int),
                    g0.tile_at(tx as int, ty as int).value == TileValue::Empty(0),
                    reached(g0, x as int, y as int, tx as int, ty as int),
                    opened_from(g0, *self, x as int, y as int),
                    is_opened(self.tile_at(x as int, y as int)),
                    cells@ == adjacent_cells(tx, ty, w, h),
                    forall|j: int|
                        0 <= j < cells@.len() ==> in_bounds(
                            w as int,
                            h as int,
                            #[trigger] cells@[j].0 as int,
                            cells@[j].1 as int,
                        ) && near(tx as int, ty as int, cells@[j].0 as int, cells@[j].1 as int),
                    0 <= k <= cells@.len(),
                    forall|j: int|
                        0 <= j < k ==> is_opened(self.tile_at(#[trigger] cells@[j].0 as int, cells@[j].1 as int)),
                    2 * count_where(self.tiles@, closed_pred()) + stack@.len() < m0,
                    forall|j: int|
                        0 <= j < stack@.len() ==> g0.on_board(#[trigger] stack@[j].0 as int, stack@[j].1 as int)
                            && is_opened(self.tile_at(stack@[j].0 as int, stack@[j].1 as int))
                            && g0.tile_at(stack@[j].0 as int, stack@[j].1 as int).value == TileValue::Empty(0)
                            && reached(g0, x as int, y as int, stack@[j].0 as int, stack@[j].1 as int),
                    forall|a: int, b: int|
                        g0.on_board(a, b) && !is_opened(g0.tile_at(a, b)) && is_opened(#[trigger] self.tile_at(a, b))
                            && g0.tile_at(a, b).value == TileValue::Empty(0) && !stack@.contains(
                            (a as usize, b as usize),
                        ) && !(a == tx && b == ty) ==> neighbours_opened(*self, a, b),
                decreases cells@.len() - k,
            {
                let (a, b) = cells[k];
                let q = self.index_of(a, b);
                let mut u = self.tiles[q];
                let ghost g1 = *self;
                let ghost st1 = stack@;
                let ghost u0 = u;
                if let Some(v2) = u.open() {
                    self.tiles.set(q, u);
                    if v2 == TileValue::Empty(0) {
                        stack.push((a, b));
                    }
                    proof {
                        assert(opened_from(g0, g1, x as int, y as int));
                        assert(self.tiles@ == g1.tiles@.update(cell_index(w as int, a as int, b as int), u));
                        lemma_cells_after_set(g1.tiles@, w as int, h as int, a as int, b as int, u);
                        lemma_counts_same_values(g1.tiles@, self.tiles@, w as int, h as int);
                        lemma_count_update(g1.tiles@, closed_pred(), q as int, u);
                        assert(!is_opened(g0.tile_at(a as int, b as int)));
                        lemma_reached_step(g0, x as int, y as int, tx as int, ty as int, a as int, b as int);
                        assert forall|c: int, d: int| g0.on_board(c, d) implies (#[trigger] self.tile_at(c, d)).state
                            == g0.tile_at(c, d).state || (is_opened(self.tile_at(c, d)) && reached(
                            g0,
                            x as int,
                            y as int,
                            c,
                            d,
                        )) by {
                            if !(c == a && d == b) {
                                assert(self.tile_at(c, d) == g1.tile_at(c, d));
                            } else {
                                assert(self.tile_at(c, d) == u);
                            }
                        }
                        assert forall|c: int, d: int|
                            g0.on_board(c, d) && !is_opened(g0.tile_at(c, d)) && is_opened(
                                #[trigger] self.tile_at(c, d),
                            ) && g0.tile_at(c, d).value == TileValue::Empty(0) && !stack@.contains(
                                (c as usize, d as usize),
                            ) && !(c == tx && d == ty) implies neighbours_opened(*self, c, d) by {
                            if !(c == a && d == b) {
                                lemma_push_contains(st1, (a, b), (c as usize, d as usize));
                                assert(self.tile_at(c, d) == g1.tile_at(c, d));
                                assert(neighbours_opened(g1, c, d));
                                assert forall|e: int, f: int|
                                    self.on_board(e, f) && near(c, d, e, f) implies is_opened(
                                    #[trigger] self.tile_at(e, f),
                                ) by {
                                    if !(e == a && f == b) {
                                        assert(self.tile_at(e, f) == g1.tile_at(e, f));
                                    }
                                }
                            } else {
                                assert(stack@.last() == (a, b));
                            }
                        }
                        assert forall|j: int| 0 <= j < k + 1 implies is_opened(
                            self.tile_at(#[trigger] cells@[j].0 as int, cells@[j].1 as int),
                        ) by {
                            if j < k {
                                assert(is_opened(g1.tile_at(cells@[j].0 as int, cells@[j].1 as int)));
                            }
                        }
                        assert forall|j: int| 0 <= j < stack@.len() implies g0.on_board(
                            #[trigger] stack@[j].0 as int,
                            stack@[j].1 as int,
                        ) && is_opened(self.tile_at(stack@[j].0 as int, stack@[j].1 as int)) && g0.tile_at(
                            stack@[j].0 as int,
                            stack@[j].1 as int,
                        ).value == TileValue::Empty(0) && reached(
                            g0,
                            x as int,
                            y as int,
                            stack@[j].0 as int,
                            stack@[j].1 as int,
                        ) by {
                            if j < st1.len() {
                                assert(stack@[j] == st1[j]);
                                assert(is_opened(g1.tile_at(st1[j].0 as int, st1[j].1 as int)));
                            }
                        }
                    }
                } else {
                    proof {
                        assert(self.tile_at(a as int, b as int) == u0);
                    }
                }
                k = k + 1;
            }
            proof {
                assert forall|c: int, d: int| self.on_board(c, d) && near(tx as int, ty as int, c, d) implies is_opened(
                    #[trigger] self.tile_at(c, d),
                ) by {
                    assert(cells@.contains((c as usize, d as usize)));
                    let j = choose|j: int| 0 <= j < cells@.len() && cells@[j] == (c as usize, d as usize);
                    assert(is_opened(self.tile_at(cells@[j].0 as int, cells@[j].1 as int)));
                }
                assert forall|a: int, b: int|
                    g0.on_board(a, b) && !is_opened(g0.tile_at(a, b)) && is_opened(#[trigger] self.tile_at(a, b))
                        && g0.tile_at(a, b).value == TileValue::Empty(0) && !stack@.contains(
                        (a as usize, b as usize),
                    ) implies neighbours_opened(*self, a, b) by {
                    if a == tx && b == ty {
                        assert(neighbours_opened(*self, tx as int, ty as int));
                    }
                }
            }
        }
        proof {
            assert forall|a: int, b: int| g0.on_board(a, b) implies (#[trigger] self.tile_at(a, b)).state
                == if reached(g0, x as int, y as int, a, b) {
                TileState::Opened
            } else {
                g0.tile_at(a, b).state
            } by {
                if reached(g0, x as int, y as int, a, b) {
                    let p = choose|p: Seq<(int, int)>| #[trigger] cascade_path(g0, p) && p[0] == (x as int, y as int)
                        && p.last() == (a, b);
                    lemma_path_opened(g0, *self, x as int, y as int, p, p.len() - 1);
                }
            }
        }
        false
    }

    /// Moves the marking of the tile at `(x, y)` one step along its cycle;
    /// an opened tile, or a place off the board, is left alone.
    pub fn cycle(&mut self, x: usize, y: usize)
        requires
            old(self).wf(),
        ensures
            final(self).wf(),
            final(self).spec_width() == old(self).spec_width(),
            final(self).spec_height() == old(self).spec_height(),
            final(self).spec_tiles() == cycled_at(*old(self), x as int, y as int),
    {
        if !self.coordinate_in_bounds(x, y) {
            return;
        }
        let i = self.index_of(x, y);
        let ghost s0 = self.tiles@;
        let mut t = self.tiles[i];
        t.cycle();
        self.tiles.set(i, t);
        proof {
            lemma_counts_same_values(s0, self.tiles@, self.width as int, self.height as int);
        }
    }
}


/// A freshly generated board holds exactly `mines` mines and
/// `area - mines` empty tiles.
pub proof fn lemma_fresh_board_totals(tiles: Seq<Tile>, config: Config)
    requires
        fresh_board(tiles, config),
    ensures
        mine_total(tiles) == config.mines,
        empty_total(tiles) == config.area() - config.mines,
{
    lemma_mine_and_empty_totals(tiles);
}

/// On a freshly generated board every tile without a mine holds the number
/// of mines among its neighbours on the board.
pub proof fn lemma_fresh_board_counts(tiles: Seq<Tile>, config: Config, x: int, y: int)
    requires
        fresh_board(tiles, config),
        in_bounds(config.x as int, config.y as int, x, y),
        !is_mine(cell(tiles, config.x as int, x, y)),
    ensures
        cell(tiles, config.x as int, x, y).value == TileValue::Empty(
            adjacent_mines(tiles, config.x as int, config.y as int, x, y) as u32,
        ),
{
    assert(count_ok_at(tiles, config.x as int, config.y as int, x, y));
}

/// A generated board holds exactly `mines` mines and `area - mines` empty
/// tiles.
pub proof fn lemma_generated_totals(g: Game, config: Config)
    requires
        g.made_from(config),
    ensures
        mine_total(g.spec_tiles()) == config.mines,
        empty_total(g.spec_tiles()) == config.area() - config.mines,
{
    lemma_mine_and_empty_totals(g.spec_tiles());
}

/// On a well-formed board every tile without a mine holds the number of
/// mines among its neighbours on the board.
pub proof fn lemma_adjacency_count(g: Game, x: int, y: int)
    requires
        g.wf(),
        g.on_board(x, y),
        !is_mine(g.tile_at(x, y)),
    ensures
        g.tile_at(x, y).value == TileValue::Empty(
            adjacent_mines(g.spec_tiles(), g.spec_width(), g.spec_height(), x, y) as u32,
        ),
{
    assert(count_ok_at(g.spec_tiles(), g.spec_width(), g.spec_height(), x, y));
}

/// Opening a place off the board returns false and changes nothing.
pub proof fn lemma_open_off_board(g0: Game, x: int, y: int, g1: Game, r: bool)
    requires
        open_result(g0, x, y, g1, r),
        !g0.on_board(x, y),
    ensures
        !r,
        g1.spec_tiles() == g0.spec_tiles(),
        g1.spec_width() == g0.spec_width(),
        g1.spec_height() == g0.spec_height(),
{
}

/// Opening the same place twice: the second call returns false and changes
/// nothing.
pub proof fn lemma_open_twice(g0: Game, x: int, y: int, g1: Game, r1: bool, g2: Game, r2: bool)
    requires
        open_result(g0, x, y, g1, r1),
        open_result(g1, x, y, g2, r2),
    ensures
        !r2,
        g2.spec_tiles() == g1.spec_tiles(),
        g2.spec_width() == g1.spec_width(),
        g2.spec_height() == g1.spec_height(),
{
    if g0.on_board(x, y) && !is_opened(g0.tile_at(x, y)) {
        let p = seq![(x, y)];
        assert(cascade_path(g0, p));
        assert(reached(g0, x, y, x, y));
        assert(g1.tile_at(x, y).state == TileState::Opened);
    }
}

/// Opening reveals the whole region it reaches and the border round it: each
/// neighbour on the board of a reached empty tile with no mine round it ends
/// opened.
pub proof fn lemma_open_reveals_border(g0: Game, x: int, y: int, g1: Game, r: bool, a: int, b: int, c: int, d: int)
    requires
        open_result(g0, x, y, g1, r),
        reached(g0, x, y, a, b),
        g0.tile_at(a, b).value == TileValue::Empty(0),
        g0.on_board(c, d),
        near(a, b, c, d),
    ensures
        is_opened(g1.tile_at(c, d)),
{
    if !is_opened(g0.tile_at(c, d)) {
        lemma_reached_step(g0, x, y, a, b, c, d);
    }
    assert(g1.tile_at(c, d).state == if reached(g0, x, y, c, d) {
        TileState::Opened
    } else {
        g0.tile_at(c, d).state
    });
}

/// Three cycles of one place bring the board back to where it was.
pub proof fn lemma_cycle_three_times_on_board(g0: Game, g1: Game, g2: Game, g3: Game, x: int, y: int)
    requires
        g0.wf(),
        g1.spec_width() == g0.spec_width() && g1.spec_height() == g0.spec_height(),
        g2.spec_width() == g0.spec_width() && g2.spec_height() == g0.spec_height(),
        g1.spec_tiles() == cycled_at(g0, x, y),
        g2.spec_tiles() == cycled_at(g1, x, y),
        g3.spec_tiles() == cycled_at(g2, x, y),
    ensures
        g3.spec_tiles() == g0.spec_tiles(),
{
    if g0.on_board(x, y) {
        let i = cell_index(g0.spec_width(), x, y);
        lemma_cell_index(g0.spec_width(), g0.spec_height(), x, y);
        crate::tile::lemma_cycle_three_times(g0.tile_at(x, y));
        assert(g3.spec_tiles() =~= g0.spec_tiles());
    }
}

} // verus!
