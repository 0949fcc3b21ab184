//! The mathematical model of the game: a toroidal grid of flags stored row
//! by row, the eight wrapped neighbours of a position, and the rule that
//! decides a cell's next state from the number of its live neighbours.
use vstd::prelude::*;
use vstd::arithmetic::div_mod::{lemma_fundamental_div_mod, lemma_mod_pos_bound};

verus! {

/// The rule of the game: a cell is alive in the next generation when it has
/// three live neighbours, or two and was alive already.
pub open spec fn life_rule(n: int, was: bool) -> bool {
    n == 3 || (n == 2 && was)
}

/// Whether `(x, y)` lies on a grid of `w` columns and `h` rows.
pub open spec fn in_grid(x: int, y: int, w: int, h: int) -> bool {
    0 <= x < w && 0 <= y < h
}

/// Position of `(x, y)` in a grid stored row by row with `w` columns.
pub open spec fn cell_index(x: int, y: int, w: int) -> int {
    y * w + x
}

/// The coordinate before `i` on a ring of `n` positions: `(i - 1 + n) % n`.
pub open spec fn wrap_dec(i: int, n: int) -> int {
    if i == 0 {
        n - 1
    } else {
        i - 1
    }
}

/// The coordinate after `i` on a ring of `n` positions: `(i + 1) % n`.
pub open spec fn wrap_inc(i: int, n: int) -> int {
    if i + 1 == n {
        0
    } else {
        i + 1
    }
}

/// The eight neighbours of `(x, y)` on a `w` by `h` torus, column by column.
pub open spec fn neighbours(x: int, y: int, w: int, h: int) -> Seq<(int, int)> {
    let lx = wrap_dec(x, w);
    let ly = wrap_dec(y, h);
    let hx = wrap_inc(x, w);
    let hy = wrap_inc(y, h);
    seq![(lx, ly), (lx, y), (lx, hy), (x, ly), (x, hy), (hx, ly), (hx, y), (hx, hy)]
}

/// How many of the positions `ns` hold a live cell in `grid`.
pub open spec fn live_among(grid: Seq<bool>, w: int, ns: Seq<(int, int)>) -> int
    decreases ns.len(),
{
    if ns.len() == 0 {
        0
    } else {
        live_among(grid, w, ns.drop_last()) + if grid[cell_index(ns.last().0, ns.last().1, w)] {
            1int
        } else {
            0int
        }
    }
}

/// The number of live neighbours of `(x, y)` in `grid`.
pub open spec fn live_neighbours(grid: Seq<bool>, w: int, h: int, x: int, y: int) -> int {
    live_among(grid, w, neighbours(x, y, w, h))
}

/// The state of `(x, y)` one generation after `grid`.
pub open spec fn next_cell(grid: Seq<bool>, w: int, h: int, x: int, y: int) -> bool {
    life_rule(live_neighbours(grid, w, h, x, y), grid[cell_index(x, y, w)])
}

/// Whether `next` is, cell for cell, the generation that follows `grid`.
pub open spec fn is_next_generation(grid: Seq<bool>, next: Seq<bool>, w: int, h: int) -> bool {
    &&& next.len() == grid.len()
    &&& forall|x: int, y: int|
        #![trigger next[cell_index(x, y, w)]]
        in_grid(x, y, w, h) ==> next[cell_index(x, y, w)] == next_cell(grid, w, h, x, y)
}

/// Whether the cell at `(x, y)` or one of its neighbours differs between
/// `g0` and `g1`.
pub open spec fn changed_around(g0: Seq<bool>, g1: Seq<bool>, w: int, h: int, x: int, y: int) -> bool {
    ||| g0[cell_index(x, y, w)] != g1[cell_index(x, y, w)]
    ||| exists|j: int|
        0 <= j < 8 && g0[cell_index(#[trigger] neighbours(x, y, w, h)[j].0, neighbours(x, y, w, h)[j].1, w)]
            != g1[cell_index(neighbours(x, y, w, h)[j].0, neighbours(x, y, w, h)[j].1, w)]
}

pub proof fn lemma_index_in_grid(x: int, y: int, w: int, h: int)
    requires
        in_grid(x, y, w, h),
    ensures
        0 <= cell_index(x, y, w) < w * h,
{
    assert(0 <= y * w + x < w * h) by (nonlinear_arith)
        requires
            0 <= x < w,
            0 <= y < h,
    ;
}

pub proof fn lemma_index_injective(x1: int, y1: int, x2: int, y2: int, w: int, h: int)
    requires
        in_grid(x1, y1, w, h),
        in_grid(x2, y2, w, h),
        cell_index(x1, y1, w) == cell_index(x2, y2, w),
    ensures
        x1 == x2,
        y1 == y2,
{
    if y1 < y2 {
        assert(y1 * w + w <= y2 * w) by (nonlinear_arith)
            requires
                y1 < y2,
                0 < w,
        ;
    } else if y2 < y1 {
        assert(y2 * w + w <= y1 * w) by (nonlinear_arith)
            requires
                y2 < y1,
                0 < w,
        ;
    }
}

/// Each position of a grid stored row by row holds the cell of one
/// coordinate pair on the grid.
pub proof fn lemma_index_onto(i: int, w: int, h: int)
    requires
        w > 0,
        0 <= i < w * h,
    ensures
        in_grid(i % w, i / w, w, h),
        cell_index(i % w, i / w, w) == i,
{
    lemma_fundamental_div_mod(i, w);
    lemma_mod_pos_bound(i, w);
    let q = i / w;
    let r = i % w;
    assert(q * w == w * q) by (nonlinear_arith);
    assert(0 <= q < h) by (nonlinear_arith)
        requires
            i == w * q + r,
            0 <= r < w,
            0 <= i < w * h,
            w > 0,
    ;
}

/// The next generation depends on the grid alone: however the cells are
/// visited, there is one result.
pub proof fn lemma_next_generation_unique(
    grid: Seq<bool>,
    n1: Seq<bool>,
    n2: Seq<bool>,
    w: int,
    h: int,
)
    requires
        w > 0,
        h > 0,
        grid.len() == w * h,
        is_next_generation(grid, n1, w, h),
        is_next_generation(grid, n2, w, h),
    ensures
        n1 == n2,
{
    assert forall|i: int| 0 <= i < n1.len() implies n1[i] == n2[i] by {
        lemma_index_onto(i, w, h);
        assert(n1[cell_index(i % w, i / w, w)] == next_cell(grid, w, h, i % w, i / w));
    }
    assert(n1 =~= n2);
}

pub proof fn lemma_neighbours_in_grid(x: int, y: int, w: int, h: int)
    requires
        in_grid(x, y, w, h),
    ensures
        neighbours(x, y, w, h).len() == 8,
        forall|j: int|
            0 <= j < 8 ==> in_grid(
                #[trigger] neighbours(x, y, w, h)[j].0,
                neighbours(x, y, w, h)[j].1,
                w,
                h,
            ),
{
}

/// Being neighbours is symmetric: `(x, y)` is the mirrored neighbour of each
/// of its neighbours.
pub proof fn lemma_neighbours_symmetric(x: int, y: int, w: int, h: int, j: int)
    requires
        in_grid(x, y, w, h),
        0 <= j < 8,
    ensures
        ({
            let n = neighbours(x, y, w, h)[j];
            neighbours(n.0, n.1, w, h)[7 - j] == (x, y)
        }),
{
}

/// Two grids that agree on the positions `ns` have as many live cells there.
pub proof fn lemma_live_among_agree(g1: Seq<bool>, g2: Seq<bool>, w: int, ns: Seq<(int, int)>)
    requires
        forall|j: int|
            0 <= j < ns.len() ==> g1[cell_index(#[trigger] ns[j].0, ns[j].1, w)] == g2[cell_index(
                ns[j].0,
                ns[j].1,
                w,
            )],
    ensures
        live_among(g1, w, ns) == live_among(g2, w, ns),
    decreases ns.len(),
{
    if ns.len() > 0 {
        let init = ns.drop_last();
        assert forall|j: int| 0 <= j < init.len() implies g1[cell_index(
            #[trigger] init[j].0,
            init[j].1,
            w,
        )] == g2[cell_index(init[j].0, init[j].1, w)] by {
            assert(init[j] == ns[j]);
        }
        lemma_live_among_agree(g1, g2, w, init);
        assert(ns.last() == ns[ns.len() - 1]);
    }
}

/// The wrapped neighbourhood of the corner `(0, 0)` on a grid of at least
/// two columns and two rows: the last column and the last row are adjacent
/// to the first ones.
pub proof fn lemma_corner_neighbours(w: int, h: int)
    requires
        w >= 2,
        h >= 2,
    ensures
        neighbours(0, 0, w, h) =~= seq![
            (w - 1, h - 1),
            (w - 1, 0),
            (w - 1, 1),
            (0, h - 1),
            (0, 1),
            (1, h - 1),
            (1, 0),
            (1, 1),
        ],
{
}

/// Changing one cell `(x0, y0)` that still held its value in `g0` makes
/// the cells around it, and only those, newly changed-around.
pub proof fn lemma_changed_around_step(
    g0: Seq<bool>,
    g1: Seq<bool>,
    g2: Seq<bool>,
    w: int,
    h: int,
    x0: int,
    y0: int,
    x: int,
    y: int,
)
    requires
        g0.len() == w * h,
        g1.len() == w * h,
        g2.len() == w * h,
        in_grid(x0, y0, w, h),
        in_grid(x, y, w, h),
        g1[cell_index(x0, y0, w)] == g0[cell_index(x0, y0, w)],
        forall|i: int| 0 <= i < w * h && i != cell_index(x0, y0, w) ==> #[trigger] g2[i] == g1[i],
    ensures
        changed_around(g0, g2, w, h, x, y) <==> (changed_around(g0, g1, w, h, x, y) || (g2[cell_index(
            x0,
            y0,
            w,
        )] != g0[cell_index(x0, y0, w)] && ((x, y) == (x0, y0) || neighbours(x0, y0, w, h).contains(
            (x, y),
        )))),
{
    let i0 = cell_index(x0, y0, w);
    let ns = neighbours(x, y, w, h);
    lemma_index_in_grid(x, y, w, h);
    lemma_index_in_grid(x0, y0, w, h);
    lemma_neighbours_in_grid(x, y, w, h);
    if changed_around(g0, g2, w, h, x, y) {
        if g0[cell_index(x, y, w)] != g2[cell_index(x, y, w)] {
            if cell_index(x, y, w) == i0 {
                lemma_index_injective(x, y, x0, y0, w, h);
            }
        } else {
            let j = choose|j: int|
                0 <= j < 8 && g0[cell_index(#[trigger] ns[j].0, ns[j].1, w)] != g2[cell_index(
                    ns[j].0,
                    ns[j].1,
                    w,
                )];
            lemma_index_in_grid(ns[j].0, ns[j].1, w, h);
            if cell_index(ns[j].0, ns[j].1, w) == i0 {
                lemma_index_injective(ns[j].0, ns[j].1, x0, y0, w, h);
                lemma_neighbours_symmetric(x, y, w, h, j);
                assert(neighbours(x0, y0, w, h)[7 - j] == (x, y));
                assert(neighbours(x0, y0, w, h).contains((x, y)));
            } else {
                assert(g2[cell_index(ns[j].0, ns[j].1, w)] == g1[cell_index(ns[j].0, ns[j].1, w)]);
            }
        }
    }
    if changed_around(g0, g1, w, h, x, y) {
        if g0[cell_index(x, y, w)] != g1[cell_index(x, y, w)] {
            assert(g2[cell_index(x, y, w)] == g1[cell_index(x, y, w)]);
        } else {
            let j = choose|j: int|
                0 <= j < 8 && g0[cell_index(#[trigger] ns[j].0, ns[j].1, w)] != g1[cell_index(
                    ns[j].0,
                    ns[j].1,
                    w,
                )];
            lemma_index_in_grid(ns[j].0, ns[j].1, w, h);
            assert(g2[cell_index(ns[j].0, ns[j].1, w)] == g1[cell_index(ns[j].0, ns[j].1, w)]);
            assert(changed_around(g0, g2, w, h, x, y));
        }
    }
    if g2[i0] != g0[i0] && neighbours(x0, y0, w, h).contains((x, y)) {
        let m = neighbours(x0, y0, w, h);
        let j = choose|j: int| 0 <= j < m.len() && m[j] == (x, y);
        lemma_neighbours_symmetric(x0, y0, w, h, j);
        assert(ns[7 - j] == (x0, y0));
        assert(g0[cell_index(ns[7 - j].0, ns[7 - j].1, w)] != g2[cell_index(ns[7 - j].0, ns[7 - j].1, w)]);
        assert(changed_around(g0, g2, w, h, x, y));
    }
}

} // verus!
