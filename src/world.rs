//! The world: a toroidal grid of cells together with the worklist of cells
//! that must be examined in the next generation.
use vstd::prelude::*;
use crate::life::{
    cell_index, changed_around, in_grid, is_next_generation, lemma_changed_around_step,
    lemma_index_in_grid, lemma_index_injective, lemma_live_among_agree, lemma_neighbours_in_grid,
    live_among, neighbours, next_cell, wrap_dec, wrap_inc,
};

verus! {

/// The state of one position of the grid.
#[derive(Copy, Clone, Debug)]
pub struct Cell {
    alive: bool,
    /// Liveness at the start of the generation being computed.
    alive_prev: bool,
    /// The cell changed in the last generation and must be redrawn.
    draw: bool,
    /// The cell is in the list of cells to examine in the next generation.
    recheck: bool,
}

impl Cell {
    pub closed spec fn spec_alive(self) -> bool {
        self.alive
    }

    pub fn is_alive(self) -> (r: bool)
        ensures
            r == self.spec_alive(),
    {
        self.alive
    }
}

/// A position on the grid.
#[derive(Clone, Copy, Debug, PartialEq, Eq)]
pub struct CellRef {
    pub x: usize,
    pub y: usize,
}

impl CellRef {
    pub open spec fn pos(self) -> (int, int) {
        (self.x as int, self.y as int)
    }
}

/// The positions that a list of cell references names, in order.
pub open spec fn positions(v: Seq<CellRef>) -> Seq<(int, int)> {
    Seq::new(v.len(), |k: int| v[k].pos())
}

/// A list of positions that lie on a `w` by `h` grid, each named once.
pub open spec fn unique_in_grid(s: Seq<(int, int)>, w: int, h: int) -> bool {
    &&& s.no_duplicates()
    &&& forall|k: int| 0 <= k < s.len() ==> in_grid(#[trigger] s[k].0, s[k].1, w, h)
}

/// The liveness of each cell of a row-major sequence of cells.
pub closed spec fn alive_of(cells: Seq<Cell>) -> Seq<bool> {
    Seq::new(cells.len(), |i: int| cells[i].alive)
}

/// A generation in progress: every cell's snapshot is `g0`, the positions
/// `visited` hold their next state, `drawn` lists the cells that changed so
/// far, and `next` lists the flagged cells, which are those with a change at
/// or around them.
spec fn in_progress(
    cells: Seq<Cell>,
    g0: Seq<bool>,
    w: int,
    h: int,
    visited: Seq<(int, int)>,
    drawn: Seq<(int, int)>,
    next: Seq<(int, int)>,
) -> bool {
    &&& w > 0
    &&& h > 0
    &&& cells.len() == w * h
    &&& g0.len() == w * h
    &&& forall|i: int|
        0 <= i < cells.len() ==> (#[trigger] cells[i]).alive_prev == g0[i] && cells[i].draw == (
        cells[i].alive != g0[i])
    &&& forall|x: int, y: int|
        in_grid(x, y, w, h) ==> (#[trigger] cells[cell_index(x, y, w)]).alive == if visited.contains(
            (x, y),
        ) {
            next_cell(g0, w, h, x, y)
        } else {
            g0[cell_index(x, y, w)]
        }
    &&& unique_in_grid(drawn, w, h)
    &&& forall|x: int, y: int|
        in_grid(x, y, w, h) ==> (drawn.contains((x, y)) <==> (#[trigger] cells[cell_index(
            x,
            y,
            w,
        )]).alive != g0[cell_index(x, y, w)])
    &&& unique_in_grid(next, w, h)
    &&& forall|x: int, y: int|
        in_grid(x, y, w, h) ==> ((#[trigger] cells[cell_index(x, y, w)]).recheck <==> next.contains(
            (x, y),
        ))
    &&& forall|x: int, y: int|
        in_grid(x, y, w, h) ==> ((#[trigger] cells[cell_index(x, y, w)]).recheck
            <==> changed_around(g0, alive_of(cells), w, h, x, y))
}

/// Supplies the state of each cell when a world is built.
pub trait Initializer {
    fn initialize_cell(&self, x: usize, y: usize) -> bool;
}

/// Shows a world: once whole after it is built, then the cells that changed
/// in each generation.
pub trait Visualizer {
    fn update_world(&mut self, world: &World)
        requires
            world.wf(),
    ;

    fn update_cells(&mut self, world: &World, cells: &Vec<CellRef>)
        requires
            world.wf(),
            forall|k: int|
                0 <= k < cells@.len() ==> in_grid(
                    #[trigger] cells@[k].x as int,
                    cells@[k].y as int,
                    world.w(),
                    world.h(),
                ),
    ;
}

/// A toroidal Game of Life grid of `width` columns and `height` rows,
/// stored row by row.
pub struct World {
    cells: Vec<Cell>,
    width: usize,
    height: usize,
    cells_to_recheck: Vec<CellRef>,
}

impl World {
    pub closed spec fn w(&self) -> int {
        self.width as int
    }

    pub closed spec fn h(&self) -> int {
        self.height as int
    }

    /// The liveness of every cell, row by row.
    pub closed spec fn alive_grid(&self) -> Seq<bool> {
        alive_of(self.cells@)
    }

    /// The liveness of every cell at the start of the last generation.
    pub closed spec fn prev_grid(&self) -> Seq<bool> {
        Seq::new(self.cells@.len(), |i: int| self.cells@[i].alive_prev)
    }

    /// Whether the cell at `(x, y)` must be redrawn.
    pub closed spec fn drawn(&self, x: int, y: int) -> bool {
        self.cells@[cell_index(x, y, self.width as int)].draw
    }

    /// Whether the cell at `(x, y)` is flagged for the next generation.
    pub closed spec fn flagged(&self, x: int, y: int) -> bool {
        self.cells@[cell_index(x, y, self.width as int)].recheck
    }

    /// The positions to examine in the next generation, in order.
    pub closed spec fn worklist(&self) -> Seq<(int, int)> {
        positions(self.cells_to_recheck@)
    }

    pub open spec fn alive_at(&self, x: int, y: int) -> bool {
        self.alive_grid()[cell_index(x, y, self.w())]
    }

    /// The worklist names each flagged cell once, and nothing else.
    pub open spec fn worklist_exact(&self) -> bool {
        &&& unique_in_grid(self.worklist(), self.w(), self.h())
        &&& forall|x: int, y: int|
            in_grid(x, y, self.w(), self.h()) ==> (#[trigger] self.flagged(x, y)
                <==> self.worklist().contains((x, y)))
    }

    /// Every cell left off the worklist keeps its state in the next
    /// generation: skipping it loses nothing.
    pub open spec fn settled_off_worklist(&self) -> bool {
        forall|x: int, y: int|
            in_grid(x, y, self.w(), self.h()) && !#[trigger] self.flagged(x, y) ==> next_cell(
                self.alive_grid(),
                self.w(),
                self.h(),
                x,
                y,
            ) == self.alive_at(x, y)
    }

    pub open spec fn wf(&self) -> bool {
        &&& self.w() > 0
        &&& self.h() > 0
        &&& self.alive_grid().len() == self.w() * self.h()
        &&& self.prev_grid().len() == self.w() * self.h()
        &&& self.worklist_exact()
        &&& self.settled_off_worklist()
    }

    /// A still life: no cell changes in the next generation.
    pub open spec fn is_still(&self) -> bool {
        forall|x: int, y: int|
            in_grid(x, y, self.w(), self.h()) ==> #[trigger] next_cell(self.alive_grid(), self.w(), self.h(), x, y)
                == self.alive_at(x, y)
    }

    /// A newly built `width` by `height` world: well formed, every cell
    /// flagged for redrawing and for examination, and its snapshot equal to
    /// its state.
    pub open spec fn fresh(&self, width: int, height: int) -> bool {
        &&& self.wf()
        &&& self.w() == width
        &&& self.h() == height
        &&& self.prev_grid() == self.alive_grid()
        &&& forall|x: int, y: int| in_grid(x, y, width, height) ==> #[trigger] self.drawn(x, y)
        &&& forall|x: int, y: int| in_grid(x, y, width, height) ==> #[trigger] self.flagged(x, y)
    }

    /// Builds a `width` by `height` world, asking `initializer` for the state
    /// of each cell, row by row. A world without cells is refused.
    pub fn new<I: Initializer>(width: usize, height: usize, initializer: &I) -> (r: Option<World>)
        requires
            width * height <= usize::MAX,
        ensures
            r is Some <==> (width > 0 && height > 0),
            r matches Some(world) ==> world.fresh(width as int, height as int),
    {
        if width == 0 || height == 0 {
            return None;
        }
        let mut seed: Vec<bool> = Vec::with_capacity(width * height);
        let mut y: usize = 0;
        while y < height
            invariant
                0 <= y <= height,
                seed@.len() == y * width,
            decreases height - y,
        {
            let mut x: usize = 0;
            while x < width
                invariant
                    0 <= y < height,
                    0 <= x <= width,
                    seed@.len() == y * width + x,
                decreases width - x,
            {
                seed.push(initializer.initialize_cell(x, y));
                x = x + 1;
            }
            assert((y + 1) * width == y * width + width) by (nonlinear_arith);
            y = y + 1;
        }
        assert(seed@.len() == width * height) by (nonlinear_arith)
            requires
                seed@.len() == y * width,
                y == height,
        ;
        World::from_seed(width, height, &seed)
    }

    /// Whether the cell at `(x, y)` is alive.
    pub fn is_alive(&self, x: usize, y: usize) -> (r: bool)
        requires
            self.wf(),
            x < self.w(),
            y < self.h(),
        ensures
            r == self.alive_at(x as int, y as int),
    {
        self.cells[self.index_of(x, y)].alive
    }

    /// Whether the cell at `(x, y)` was alive at the start of the generation.
    fn was_alive(&self, x: usize, y: usize) -> (r: bool)
        requires
            self.cells@.len() == self.w() * self.h(),
            x < self.w(),
            y < self.h(),
        ensures
            r == self.cells@[cell_index(x as int, y as int, self.w())].alive_prev,
    {
        self.cells[self.index_of(x, y)].alive_prev
    }

    pub fn get_width(&self) -> (r: usize)
        ensures
            r == self.w(),
    {
        self.width
    }

    pub fn get_height(&self) -> (r: usize)
        ensures
            r == self.h(),
    {
        self.height
    }

    /// How many cells will be examined in the next generation.
    pub fn recheck_len(&self) -> (r: usize)
        ensures
            r == self.worklist().len(),
    {
        self.cells_to_recheck.len()
    }

    /// Where the cell at `(x, y)` is stored.
    fn index_of(&self, x: usize, y: usize) -> (i: usize)
        requires
            self.cells@.len() == self.w() * self.h(),
            x < self.w(),
            y < self.h(),
        ensures
            i == cell_index(x as int, y as int, self.w()),
            i < self.cells@.len(),
    {
        let n = self.cells.len();
        proof {
            lemma_index_in_grid(x as int, y as int, self.w(), self.h());
        }
        y * self.width + x
    }

    fn get_cloned_cell(&self, x: usize, y: usize) -> (r: Cell)
        requires
            self.cells@.len() == self.w() * self.h(),
            x < self.w(),
            y < self.h(),
        ensures
            r == self.cells@[cell_index(x as int, y as int, self.w())],
    {
        self.cells[self.index_of(x, y)]
    }

    fn set_cell(&mut self, x: usize, y: usize, cell: Cell)
        requires
            old(self).cells@.len() == old(self).w() * old(self).h(),
            x < old(self).w(),
            y < old(self).h(),
        ensures
            final(self).cells@ == old(self).cells@.update(
                cell_index(x as int, y as int, old(self).w()),
                cell,
            ),
            final(self).width == old(self).width,
            final(self).height == old(self).height,
            final(self).cells_to_recheck == old(self).cells_to_recheck,
    {
        let i = self.index_of(x, y);
        self.cells.set(i, cell);
    }

    /// The eight neighbours of `(x, y)`, wrapping around the edges:
    /// `((x + w - 1) % w, (y + h - 1) % h)` to `((x + 1) % w, (y + 1) % h)`.
    fn get_neighbors(&self, x: usize, y: usize) -> (r: [(usize, usize); 8])
        requires
            self.w() > 0,
            self.h() > 0,
            x < self.w(),
            y < self.h(),
        ensures
            forall|j: int|
                0 <= j < 8 ==> (#[trigger] r@[j].0 as int, r@[j].1 as int) == neighbours(
                    x as int,
                    y as int,
                    self.w(),
                    self.h(),
                )[j],
    {
        let minx = if x == 0 {
            self.width - 1
        } else {
            x - 1
        };
        let miny = if y == 0 {
            self.height - 1
        } else {
            y - 1
        };
        let maxx = if x + 1 == self.width {
            0
        } else {
            x + 1
        };
        let maxy = if y + 1 == self.height {
            0
        } else {
            y + 1
        };
        let r = [
            (minx, miny),
            (minx, y),
            (minx, maxy),
            (x, miny),
            (x, maxy),
            (maxx, miny),
            (maxx, y),
            (maxx, maxy),
        ];
        assert(minx == wrap_dec(x as int, self.w()));
        assert(maxy == wrap_inc(y as int, self.h()));
        r
    }

    /// Examines the cell at `(x, y)`: applies the rule to the snapshot of its
    /// neighbourhood, records it in `drawn` if it changed, and then flags it
    /// and its neighbours in `next`, each at most once.
    #[verifier::loop_isolation(false)]
    #[verifier::rlimit(40)]
    fn visit(
        &mut self,
        x: usize,
        y: usize,
        drawn: &mut Vec<CellRef>,
        next: &mut Vec<CellRef>,
        Ghost(g0): Ghost<Seq<bool>>,
        Ghost(visited): Ghost<Seq<(int, int)>>,
    )
        requires
            in_progress(
                old(self).cells@,
                g0,
                old(self).w(),
                old(self).h(),
                visited,
                positions(old(drawn)@),
                positions(old(next)@),
            ),
            in_grid(x as int, y as int, old(self).w(), old(self).h()),
            !visited.contains((x as int, y as int)),
        ensures
            in_progress(
                final(self).cells@,
                g0,
                final(self).w(),
                final(self).h(),
                visited.push((x as int, y as int)),
                positions(final(drawn)@),
                positions(final(next)@),
            ),
            final(self).width == old(self).width,
            final(self).height == old(self).height,
            final(self).cells_to_recheck == old(self).cells_to_recheck,
    {
        let ghost w = self.w();
        let ghost h = self.h();
        let ghost i0 = cell_index(x as int, y as int, w);
        let ghost ns = neighbours(x as int, y as int, w, h);
        let ghost c0 = self.cells@;
        proof {
            lemma_index_in_grid(x as int, y as int, w, h);
            lemma_neighbours_in_grid(x as int, y as int, w, h);
        }
        let neighbors = self.get_neighbors(x, y);
        let mut alive_neighbors: usize = 0;
        let mut j: usize = 0;
        while j < 8
            invariant
                0 <= j <= 8,
                alive_neighbors <= j,
                alive_neighbors == live_among(g0, w, ns.take(j as int)),
            decreases 8 - j,
        {
            let (nx, ny) = neighbors[j];
            assert(ns[j as int] == (nx as int, ny as int));
            if self.was_alive(nx, ny) {
                alive_neighbors = alive_neighbors + 1;
            }
            proof {
                lemma_index_in_grid(nx as int, ny as int, w, h);
                assert(ns.take(j + 1).drop_last() =~= ns.take(j as int));
            }
            j = j + 1;
        }
        assert(ns.take(8) =~= ns);
        let mut cell = self.get_cloned_cell(x, y);
        let mut changed = false;
        if alive_neighbors < 2 || alive_neighbors > 3 {
            cell.alive = false;
            if cell.alive_prev != cell.alive {
                changed = true;
                cell.draw = true;
            }
        }
        if alive_neighbors == 3 {
            cell.alive = true;
            if cell.alive_prev != cell.alive {
                changed = true;
                cell.draw = true;
            }
        }
        assert(cell.alive == next_cell(g0, w, h, x as int, y as int));
        assert(changed == (cell.alive != g0[i0]));
        if cell.draw {
            drawn.push(CellRef { x, y });
        }
        if changed && !cell.recheck {
            cell.recheck = true;
            next.push(CellRef { x, y });
        }
        // Stored before the neighbours are flagged: on a grid one column or
        // one row wide the cell is its own neighbour, and must not be listed
        // a second time.
        self.set_cell(x, y, cell);
        let ghost mid = self.cells@;
        let ghost next_mid = positions(next@);
        proof {
            assert forall|x1: int, y1: int| in_grid(x1, y1, w, h) && (x1, y1) != (x as int, y as int) implies
                #[trigger] mid[cell_index(x1, y1, w)] == c0[cell_index(x1, y1, w)] by {
                lemma_index_in_grid(x1, y1, w, h);
                if cell_index(x1, y1, w) == i0 {
                    lemma_index_injective(x1, y1, x as int, y as int, w, h);
                }
            }
            assert forall|x1: int, y1: int| in_grid(x1, y1, w, h) implies ((
            #[trigger] mid[cell_index(x1, y1, w)]).recheck <==> next_mid.contains((x1, y1))) by {
                lemma_index_in_grid(x1, y1, w, h);
                if (x1, y1) != (x as int, y as int) {
                    assert(c0[cell_index(x1, y1, w)].recheck <==> positions(old(next)@).contains((x1, y1)));
                    if positions(old(next)@).contains((x1, y1)) {
                        let k = choose|k: int| 0 <= k < positions(old(next)@).len() && positions(old(next)@)[k] == (x1, y1);
                        assert(next_mid[k] == (x1, y1));
                    }
                    if next_mid.contains((x1, y1)) {
                        let k = choose|k: int| 0 <= k < next_mid.len() && next_mid[k] == (x1, y1);
                        if k < positions(old(next)@).len() {
                            assert(positions(old(next)@)[k] == (x1, y1));
                        }
                    }
                } else {
                    if c0[i0].recheck {
                        let k = choose|k: int| 0 <= k < positions(old(next)@).len() && positions(old(next)@)[k] == (x1, y1);
                        assert(next_mid[k] == (x1, y1));
                    } else if changed {
                        assert(next_mid[next_mid.len() - 1] == (x1, y1));
                    } else {
                        assert(next_mid =~= positions(old(next)@));
                    }
                }
            }
            assert(unique_in_grid(next_mid, w, h)) by {
                if changed && !c0[i0].recheck {
                    assert(!positions(old(next)@).contains((x as int, y as int)));
                    assert forall|a: int, b: int| 0 <= a < next_mid.len() && 0 <= b < next_mid.len() && a != b
                        implies next_mid[a] != next_mid[b] by {
                        if a == next_mid.len() - 1 {
                            assert(next_mid[b] == positions(old(next)@)[b]);
                        } else if b == next_mid.len() - 1 {
                            assert(next_mid[a] == positions(old(next)@)[a]);
                        } else {
                            assert(next_mid[a] == positions(old(next)@)[a]);
                            assert(next_mid[b] == positions(old(next)@)[b]);
                        }
                    }
                    assert forall|k: int| 0 <= k < next_mid.len() implies in_grid(#[trigger] next_mid[k].0, next_mid[k].1, w, h) by {
                        if k < next_mid.len() - 1 {
                            assert(next_mid[k] == positions(old(next)@)[k]);
                        }
                    }
                } else {
                    assert(next_mid =~= positions(old(next)@));
                }
            }
        }
        if changed {
            let mut j: usize = 0;
            while j < 8
                invariant
                    0 <= j <= 8,
                    self.width == old(self).width,
                    self.height == old(self).height,
                    self.cells_to_recheck == old(self).cells_to_recheck,
                    self.cells@.len() == w * h,
                    forall|i: int|
                        0 <= i < w * h ==> (#[trigger] self.cells@[i]).alive == mid[i].alive
                            && self.cells@[i].alive_prev == mid[i].alive_prev
                            && self.cells@[i].draw == mid[i].draw,
                    forall|x1: int, y1: int|
                        in_grid(x1, y1, w, h) ==> ((#[trigger] self.cells@[cell_index(x1, y1, w)]).recheck
                            <==> (mid[cell_index(x1, y1, w)].recheck || ns.take(j as int).contains((x1, y1)))),
                    unique_in_grid(positions(next@), w, h),
                    forall|x1: int, y1: int|
                        in_grid(x1, y1, w, h) ==> ((#[trigger] self.cells@[cell_index(x1, y1, w)]).recheck
                            <==> positions(next@).contains((x1, y1))),
                decreases 8 - j,
            {
                let (nx, ny) = neighbors[j];
                let ghost cur = self.cells@;
                let ghost next_cur = positions(next@);
                let ghost ni = cell_index(nx as int, ny as int, w);
                assert(ns[j as int] == (nx as int, ny as int));
                let mut neighbor = self.get_cloned_cell(nx, ny);
                if !neighbor.recheck {
                    neighbor.recheck = true;
                    self.set_cell(nx, ny, neighbor);
                    next.push(CellRef { x: nx, y: ny });
                }
                proof {
                    lemma_index_in_grid(nx as int, ny as int, w, h);
                    let nxt = positions(next@);
                    assert(ns.take(j + 1) =~= ns.take(j as int).push((nx as int, ny as int)));
                    assert forall|x1: int, y1: int| in_grid(x1, y1, w, h) implies ((
                    #[trigger] self.cells@[cell_index(x1, y1, w)]).recheck <==> (mid[cell_index(x1, y1, w)].recheck
                        || ns.take(j + 1).contains((x1, y1)))) && (self.cells@[cell_index(x1, y1, w)].recheck
                        <==> nxt.contains((x1, y1))) by {
                        lemma_index_in_grid(x1, y1, w, h);
                        if cell_index(x1, y1, w) == ni {
                            lemma_index_injective(x1, y1, nx as int, ny as int, w, h);
                            assert(ns.take(j + 1)[j as int] == (x1, y1));
                            if !cur[ni].recheck {
                                assert(nxt[nxt.len() - 1] == (x1, y1));
                            }
                        } else {
                            assert(self.cells@[cell_index(x1, y1, w)] == cur[cell_index(x1, y1, w)]);
                            if ns.take(j + 1).contains((x1, y1)) {
                                let k = choose|k: int| 0 <= k < j + 1 && #[trigger] ns.take(j + 1)[k] == (x1, y1);
                                if k < j {
                                    assert(ns.take(j as int)[k] == (x1, y1));
                                }
                            }
                            if ns.take(j as int).contains((x1, y1)) {
                                let k = choose|k: int| 0 <= k < j && #[trigger] ns.take(j as int)[k] == (x1, y1);
                                assert(ns.take(j + 1)[k] == (x1, y1));
                            }
                            if next_cur.contains((x1, y1)) {
                                let k = choose|k: int| 0 <= k < next_cur.len() && next_cur[k] == (x1, y1);
                                assert(nxt[k] == (x1, y1));
                            }
                            if nxt.contains((x1, y1)) {
                                let k = choose|k: int| 0 <= k < nxt.len() && nxt[k] == (x1, y1);
                                if k < next_cur.len() {
                                    assert(next_cur[k] == (x1, y1));
                                }
                            }
                        }
                    }
                    if !cur[ni].recheck {
                        assert(!next_cur.contains((nx as int, ny as int)));
                        assert forall|a: int, b: int| 0 <= a < nxt.len() && 0 <= b < nxt.len() && a != b
                            implies nxt[a] != nxt[b] by {
                            if a == nxt.len() - 1 {
                                assert(nxt[b] == next_cur[b]);
                            } else if b == nxt.len() - 1 {
                                assert(nxt[a] == next_cur[a]);
                            } else {
                                assert(nxt[a] == next_cur[a]);
                                assert(nxt[b] == next_cur[b]);
                            }
                        }
                        assert forall|k: int| 0 <= k < nxt.len() implies in_grid(#[trigger] nxt[k].0, nxt[k].1, w, h) by {
                            if k < nxt.len() - 1 {
                                assert(nxt[k] == next_cur[k]);
                            }
                        }
                    } else {
                        assert(nxt =~= next_cur);
                    }
                    assert forall|i: int| 0 <= i < w * h implies (#[trigger] self.cells@[i]).alive == mid[i].alive
                        && self.cells@[i].alive_prev == mid[i].alive_prev && self.cells@[i].draw == mid[i].draw by {
                        if i != ni {
                            assert(self.cells@[i] == cur[i]);
                        }
                    }
                }
                j = j + 1;
            }
            assert(ns.take(8) =~= ns);
        }
        proof {
            let fin = self.cells@;
            let vis = visited.push((x as int, y as int));
            let d0 = positions(old(drawn)@);
            let d1 = positions(drawn@);
            assert(!c0[i0].draw);
            assert forall|i: int| 0 <= i < w * h && i != i0 implies #[trigger] alive_of(fin)[i]
                == alive_of(c0)[i] by {
                assert(mid[i] == c0[i]);
            }
            assert forall|i: int| 0 <= i < fin.len() implies (#[trigger] fin[i]).alive_prev == g0[i]
                && fin[i].draw == (fin[i].alive != g0[i]) by {
                if i != i0 {
                    assert(mid[i] == c0[i]);
                }
            }
            assert forall|x1: int, y1: int| in_grid(x1, y1, w, h) implies {
                &&& (#[trigger] fin[cell_index(x1, y1, w)]).alive == if vis.contains((x1, y1)) {
                    next_cell(g0, w, h, x1, y1)
                } else {
                    g0[cell_index(x1, y1, w)]
                }
                &&& (d1.contains((x1, y1)) <==> fin[cell_index(x1, y1, w)].alive != g0[cell_index(x1, y1, w)])
                &&& (fin[cell_index(x1, y1, w)].recheck <==> changed_around(g0, alive_of(fin), w, h, x1, y1))
            } by {
                lemma_index_in_grid(x1, y1, w, h);
                lemma_changed_around_step(g0, alive_of(c0), alive_of(fin), w, h, x as int, y as int, x1, y1);
                assert(vis.contains((x1, y1)) <==> (visited.contains((x1, y1)) || (x1, y1) == (x as int, y as int))) by {
                    if vis.contains((x1, y1)) {
                        let k = choose|k: int| 0 <= k < vis.len() && vis[k] == (x1, y1);
                        if k < visited.len() {
                            assert(visited[k] == (x1, y1));
                        }
                    }
                    if visited.contains((x1, y1)) {
                        let k = choose|k: int| 0 <= k < visited.len() && visited[k] == (x1, y1);
                        assert(vis[k] == (x1, y1));
                    }
                    assert(vis[visited.len() as int] == (x as int, y as int));
                }
                assert(d1.contains((x1, y1)) <==> (d0.contains((x1, y1)) || (changed && (x1, y1) == (x as int, y as int)))) by {
                    if changed {
                        if d1.contains((x1, y1)) {
                            let k = choose|k: int| 0 <= k < d1.len() && d1[k] == (x1, y1);
                            if k < d0.len() {
                                assert(d0[k] == (x1, y1));
                            }
                        }
                        if d0.contains((x1, y1)) {
                            let k = choose|k: int| 0 <= k < d0.len() && d0[k] == (x1, y1);
                            assert(d1[k] == (x1, y1));
                        }
                        assert(d1[d0.len() as int] == (x as int, y as int));
                    } else {
                        assert(d1 =~= d0);
                    }
                }
                if (x1, y1) != (x as int, y as int) {
                    if cell_index(x1, y1, w) == i0 {
                        lemma_index_injective(x1, y1, x as int, y as int, w, h);
                    }
                    assert(mid[cell_index(x1, y1, w)] == c0[cell_index(x1, y1, w)]);
                } else {
                    assert(alive_of(fin)[i0] == fin[i0].alive);
                }
                if changed {
                    assert(ns.take(8) =~= ns);
                }
            }
            assert(unique_in_grid(d1, w, h)) by {
                if changed {
                    assert(!d0.contains((x as int, y as int)));
                    assert forall|a: int, b: int| 0 <= a < d1.len() && 0 <= b < d1.len() && a != b
                        implies d1[a] != d1[b] by {
                        if a == d1.len() - 1 {
                            assert(d1[b] == d0[b]);
                        } else if b == d1.len() - 1 {
                            assert(d1[a] == d0[a]);
                        } else {
                            assert(d1[a] == d0[a]);
                            assert(d1[b] == d0[b]);
                        }
                    }
                    assert forall|k: int| 0 <= k < d1.len() implies in_grid(#[trigger] d1[k].0, d1[k].1, w, h) by {
                        if k < d1.len() - 1 {
                            assert(d1[k] == d0[k]);
                        }
                    }
                } else {
                    assert(d1 =~= d0);
                }
            }
        }
    }

    /// Advances the world by one generation and returns the cells whose
    /// state changed, each once.
    ///
    /// Only the cells of the worklist are examined; every rule application
    /// reads the states at the start of the generation. The new worklist
    /// holds the cells that changed and their neighbours, each once.
    #[verifier::rlimit(40)]
    pub fn iterate(&mut self) -> (changes: Vec<CellRef>)
        requires
            old(self).wf(),
        ensures
            final(self).wf(),
            final(self).w() == old(self).w(),
            final(self).h() == old(self).h(),
            is_next_generation(
                old(self).alive_grid(),
                final(self).alive_grid(),
                old(self).w(),
                old(self).h(),
            ),
            final(self).prev_grid() == old(self).alive_grid(),
            unique_in_grid(positions(changes@), old(self).w(), old(self).h()),
            forall|x: int, y: int|
                in_grid(x, y, old(self).w(), old(self).h()) ==> (positions(changes@).contains((x, y))
                    <==> #[trigger] final(self).alive_at(x, y) != old(self).alive_at(x, y)),
            forall|x: int, y: int|
                in_grid(x, y, old(self).w(), old(self).h()) ==> (#[trigger] final(self).drawn(x, y)
                    <==> final(self).alive_at(x, y) != old(self).alive_at(x, y)),
            forall|x: int, y: int|
                in_grid(x, y, old(self).w(), old(self).h()) ==> (#[trigger] final(self).flagged(x, y)
                    <==> changed_around(
                    old(self).alive_grid(),
                    final(self).alive_grid(),
                    old(self).w(),
                    old(self).h(),
                    x,
                    y,
                )),
            changes@.len() == 0 <==> final(self).worklist().len() == 0,
            old(self).is_still() ==> changes@.len() == 0 && final(self).worklist().len() == 0,
    {
        let ghost g0 = self.alive_grid();
        let ghost w = self.w();
        let ghost h = self.h();
        let ghost wl = self.worklist();
        proof {
            assert forall|x: int, y: int| in_grid(x, y, w, h) && !wl.contains((x, y)) implies
                next_cell(g0, w, h, x, y) == g0[cell_index(x, y, w)] by {
                assert(self.flagged(x, y) <==> wl.contains((x, y)));
            }
        }
        self.reset_world();
        let mut snapshot: Vec<CellRef> = Vec::new();
        std::mem::swap(&mut snapshot, &mut self.cells_to_recheck);
        let snapshot = snapshot;
        let mut drawn: Vec<CellRef> = Vec::new();
        let mut next: Vec<CellRef> = Vec::new();
        proof {
            let cells = self.cells@;
            assert(positions(snapshot@) == wl);
            assert(alive_of(cells) =~= g0);
            assert(positions(drawn@) =~= Seq::<(int, int)>::empty());
            assert(positions(next@) =~= Seq::<(int, int)>::empty());
            assert forall|i: int| 0 <= i < cells.len() implies (#[trigger] cells[i]).alive_prev == g0[i]
                && cells[i].draw == (cells[i].alive != g0[i]) by {
                assert(self.prev_grid()[i] == cells[i].alive_prev);
                assert(alive_of(cells)[i] == cells[i].alive);
            }
            assert forall|x: int, y: int| in_grid(x, y, w, h) implies {
                &&& (#[trigger] cells[cell_index(x, y, w)]).alive == g0[cell_index(x, y, w)]
                &&& !cells[cell_index(x, y, w)].recheck
                &&& !changed_around(g0, alive_of(cells), w, h, x, y)
            } by {
                lemma_index_in_grid(x, y, w, h);
                assert(alive_of(cells)[cell_index(x, y, w)] == cells[cell_index(x, y, w)].alive);
            }
            assert(wl.take(0) =~= Seq::<(int, int)>::empty());
        }
        let n = snapshot.len();
        let mut k: usize = 0;
        while k < n
            invariant
                0 <= k <= n,
                n == wl.len(),
                positions(snapshot@) == wl,
                unique_in_grid(wl, w, h),
                self.w() == w,
                self.h() == h,
                in_progress(
                    self.cells@,
                    g0,
                    w,
                    h,
                    wl.take(k as int),
                    positions(drawn@),
                    positions(next@),
                ),
            decreases n - k,
        {
            let c = snapshot[k];
            proof {
                assert(wl[k as int] == (c.x as int, c.y as int));
                assert(in_grid(wl[k as int].0, wl[k as int].1, w, h));
                assert(wl.take(k + 1) =~= wl.take(k as int).push(wl[k as int]));
                if wl.take(k as int).contains(wl[k as int]) {
                    let a = choose|a: int| 0 <= a < k && #[trigger] wl.take(k as int)[a] == wl[k as int];
                    assert(wl[a] == wl[k as int]);
                }
            }
            self.visit(c.x, c.y, &mut drawn, &mut next, Ghost(g0), Ghost(wl.take(k as int)));
            k = k + 1;
        }
        self.cells_to_recheck = next;
        proof {
            self.lemma_generation_done(g0, wl, positions(drawn@));
            if old(self).is_still() && drawn@.len() > 0 {
                let p = positions(drawn@)[0];
                assert(in_grid(p.0, p.1, w, h));
                assert(positions(drawn@).contains(p));
                assert(self.alive_at(p.0, p.1) != g0[cell_index(p.0, p.1, w)]);
                assert(next_cell(g0, w, h, p.0, p.1) == old(self).alive_at(p.0, p.1));
                assert(self.alive_grid()[cell_index(p.0, p.1, w)] == next_cell(g0, w, h, p.0, p.1));
            }
        }
        drawn
    }

    /// What a finished pass over the worklist leaves: the next generation,
    /// a well-formed world, and the exact lists of changes and of flags.
    proof fn lemma_generation_done(&self, g0: Seq<bool>, wl: Seq<(int, int)>, d: Seq<(int, int)>)
        requires
            in_progress(self.cells@, g0, self.w(), self.h(), wl.take(wl.len() as int), d, self.worklist()),
            forall|x: int, y: int|
                in_grid(x, y, self.w(), self.h()) && !wl.contains((x, y)) ==> next_cell(
                    g0,
                    self.w(),
                    self.h(),
                    x,
                    y,
                ) == g0[cell_index(x, y, self.w())],
        ensures
            self.wf(),
            is_next_generation(g0, self.alive_grid(), self.w(), self.h()),
            self.prev_grid() == g0,
            forall|x: int, y: int|
                in_grid(x, y, self.w(), self.h()) ==> (d.contains((x, y)) <==> #[trigger] self.alive_at(
                    x,
                    y,
                ) != g0[cell_index(x, y, self.w())]),
            forall|x: int, y: int|
                in_grid(x, y, self.w(), self.h()) ==> (#[trigger] self.drawn(x, y) <==> self.alive_at(x, y)
                    != g0[cell_index(x, y, self.w())]),
            forall|x: int, y: int|
                in_grid(x, y, self.w(), self.h()) ==> (#[trigger] self.flagged(x, y) <==> changed_around(
                    g0,
                    self.alive_grid(),
                    self.w(),
                    self.h(),
                    x,
                    y,
                )),
            d.len() == 0 <==> self.worklist().len() == 0,
    {
        let w = self.w();
        let h = self.h();
        let cells = self.cells@;
        let g1 = self.alive_grid();
        assert(wl.take(wl.len() as int) =~= wl);
        assert forall|x: int, y: int| in_grid(x, y, w, h) implies #[trigger] g1[cell_index(x, y, w)]
            == next_cell(g0, w, h, x, y) && g1[cell_index(x, y, w)] == cells[cell_index(x, y, w)].alive by {
            lemma_index_in_grid(x, y, w, h);
            assert(cells[cell_index(x, y, w)].alive == next_cell(g0, w, h, x, y));
        }
        assert(self.prev_grid() =~= g0) by {
            assert forall|i: int| 0 <= i < g0.len() implies self.prev_grid()[i] == g0[i] by {
                assert(cells[i].alive_prev == g0[i]);
            }
        }
        assert forall|x: int, y: int|
            in_grid(x, y, w, h) && !#[trigger] self.flagged(x, y) implies next_cell(g1, w, h, x, y)
            == self.alive_at(x, y) by {
            lemma_index_in_grid(x, y, w, h);
            lemma_neighbours_in_grid(x, y, w, h);
            let ns = neighbours(x, y, w, h);
            assert(!changed_around(g0, alive_of(cells), w, h, x, y));
            assert forall|j: int| 0 <= j < ns.len() implies g1[cell_index(#[trigger] ns[j].0, ns[j].1, w)]
                == g0[cell_index(ns[j].0, ns[j].1, w)] by {
                assert(in_grid(ns[j].0, ns[j].1, w, h));
            }
            lemma_live_among_agree(g1, g0, w, ns);
        }
        assert forall|x: int, y: int| in_grid(x, y, w, h) implies (#[trigger] self.drawn(x, y)
            <==> self.alive_at(x, y) != g0[cell_index(x, y, w)]) by {
            lemma_index_in_grid(x, y, w, h);
            assert(cells[cell_index(x, y, w)].draw == (cells[cell_index(x, y, w)].alive != g0[cell_index(x, y, w)]));
        }
        if d.len() > 0 {
            let p = d[0];
            assert(in_grid(p.0, p.1, w, h));
            lemma_index_in_grid(p.0, p.1, w, h);
            assert(d.contains(p));
            assert(self.flagged(p.0, p.1));
            assert(self.worklist().contains(p));
        }
        if self.worklist().len() > 0 {
            let p = self.worklist()[0];
            assert(in_grid(p.0, p.1, w, h));
            lemma_index_in_grid(p.0, p.1, w, h);
            lemma_neighbours_in_grid(p.0, p.1, w, h);
            assert(self.worklist().contains(p));
            assert(changed_around(g0, g1, w, h, p.0, p.1));
            if g0[cell_index(p.0, p.1, w)] != g1[cell_index(p.0, p.1, w)] {
                assert(d.contains(p));
            } else {
                let ns = neighbours(p.0, p.1, w, h);
                let j = choose|j: int|
                    0 <= j < 8 && g0[cell_index(#[trigger] ns[j].0, ns[j].1, w)] != g1[cell_index(
                        ns[j].0,
                        ns[j].1,
                        w,
                    )];
                assert(in_grid(ns[j].0, ns[j].1, w, h));
                assert(d.contains(ns[j]));
            }
        }
    }

    /// Starts a generation: every cell forgets its flags, and its present
    /// state becomes the snapshot that the generation reads.
    fn reset_world(&mut self)
        requires
            old(self).cells@.len() == old(self).w() * old(self).h(),
        ensures
            final(self).width == old(self).width,
            final(self).height == old(self).height,
            final(self).cells_to_recheck == old(self).cells_to_recheck,
            final(self).cells@.len() == old(self).cells@.len(),
            final(self).alive_grid() == old(self).alive_grid(),
            final(self).prev_grid() == final(self).alive_grid(),
            forall|i: int|
                0 <= i < final(self).cells@.len() ==> !(#[trigger] final(self).cells@[i]).draw
                    && !final(self).cells@[i].recheck,
    {
        let ghost before = self.cells@;
        let n = self.cells.len();
        let mut i: usize = 0;
        while i < n
            invariant
                0 <= i <= n,
                n == before.len(),
                self.width == old(self).width,
                self.height == old(self).height,
                self.cells_to_recheck == old(self).cells_to_recheck,
                self.cells@.len() == n,
                forall|k: int| i <= k < n ==> #[trigger] self.cells@[k] == before[k],
                forall|k: int|
                    0 <= k < i ==> (#[trigger] self.cells@[k]) == (Cell {
                        alive: before[k].alive,
                        alive_prev: before[k].alive,
                        draw: false,
                        recheck: false,
                    }),
            decreases n - i,
        {
            let mut cell = self.cells[i];
            cell.draw = false;
            cell.recheck = false;
            cell.alive_prev = cell.alive;
            self.cells.set(i, cell);
            i = i + 1;
        }
        assert(self.alive_grid() =~= alive_of(before));
        assert(self.prev_grid() =~= self.alive_grid());
    }

    /// Builds a world whose cells, row by row, are alive where `seed` says.
    /// Every cell starts flagged for redrawing and for examination.
    pub fn from_seed(width: usize, height: usize, seed: &Vec<bool>) -> (r: Option<World>)
        ensures
            r is Some <==> (width > 0 && height > 0 && seed@.len() == width * height),
            r matches Some(world) ==> world.fresh(width as int, height as int) && world.alive_grid()
                == seed@,
    {
        if width == 0 || height == 0 {
            return None;
        }
        let len = seed.len();
        let n = match width.checked_mul(height) {
            Some(n) => n,
            None => {
                return None;
            },
        };
        if n != len {
            return None;
        }
        let ghost w = width as int;
        let ghost h = height as int;
        let mut cells: Vec<Cell> = Vec::with_capacity(n);
        let mut refs: Vec<CellRef> = Vec::with_capacity(n);
        let mut y: usize = 0;
        while y < height
            invariant
                n == w * h,
                w == width,
                h == height,
                seed@.len() == n,
                0 <= y <= height,
                cells@.len() == y * w,
                refs@.len() == cells@.len(),
                forall|i: int|
                    0 <= i < cells@.len() ==> #[trigger] cells@[i] == (Cell {
                        alive: seed@[i],
                        alive_prev: seed@[i],
                        draw: true,
                        recheck: true,
                    }),
                forall|k: int|
                    0 <= k < refs@.len() ==> in_grid(#[trigger] refs@[k].x as int, refs@[k].y as int, w, h)
                        && cell_index(refs@[k].x as int, refs@[k].y as int, w) == k,
            decreases height - y,
        {
            let mut x: usize = 0;
            while x < width
                invariant
                    n == w * h,
                    w == width,
                    h == height,
                    seed@.len() == n,
                    0 <= y < height,
                    0 <= x <= width,
                    cells@.len() == y * w + x,
                    refs@.len() == cells@.len(),
                    forall|i: int|
                        0 <= i < cells@.len() ==> #[trigger] cells@[i] == (Cell {
                            alive: seed@[i],
                            alive_prev: seed@[i],
                            draw: true,
                            recheck: true,
                        }),
                    forall|k: int|
                        0 <= k < refs@.len() ==> in_grid(
                            #[trigger] refs@[k].x as int,
                            refs@[k].y as int,
                            w,
                            h,
                        ) && cell_index(refs@[k].x as int, refs@[k].y as int, w) == k,
                decreases width - x,
            {
                proof {
                    lemma_index_in_grid(x as int, y as int, w, h);
                }
                let i = y * width + x;
                let alive = seed[i];
                cells.push(Cell { alive, alive_prev: alive, draw: true, recheck: true });
                refs.push(CellRef { x, y });
                x = x + 1;
            }
            assert((y + 1) * w == y * w + w) by (nonlinear_arith);
            y = y + 1;
        }
        assert(cells@.len() == n) by (nonlinear_arith)
            requires
                cells@.len() == y * w,
                y == h,
                n == w * h,
        ;
        let world = World { cells, width, height, cells_to_recheck: refs };
        proof {
            let wl = world.worklist();
            assert(world.alive_grid() =~= seed@);
            assert(world.prev_grid() =~= seed@);
            assert forall|i: int, j: int|
                0 <= i < wl.len() && 0 <= j < wl.len() && i != j implies wl[i] != wl[j] by {
                assert(cell_index(wl[i].0, wl[i].1, w) == i);
                assert(cell_index(wl[j].0, wl[j].1, w) == j);
            }
            assert forall|x: int, y: int| in_grid(x, y, w, h) implies (#[trigger] world.flagged(x, y)
                <==> wl.contains((x, y))) by {
                lemma_index_in_grid(x, y, w, h);
                let k = cell_index(x, y, w);
                lemma_index_injective(wl[k].0, wl[k].1, x, y, w, h);
                assert(wl[k] == (x, y));
            }
            assert forall|x: int, y: int| in_grid(x, y, w, h) implies #[trigger] world.drawn(x, y) by {
                lemma_index_in_grid(x, y, w, h);
            }
            assert forall|x: int, y: int| in_grid(x, y, w, h) implies #[trigger] world.flagged(x, y) by {
                lemma_index_in_grid(x, y, w, h);
            }
            assert(unique_in_grid(wl, w, h));
            assert(world.worklist_exact());
            assert(world.settled_off_worklist());
            assert(world.fresh(w, h));
        }
        Some(world)
    }
}

} // verus!
