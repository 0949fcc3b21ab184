//! A text rendering of the world: '#' for a live cell, ' ' for a dead one.
use vstd::prelude::*;
use crate::life::in_grid;
use crate::world::{positions, CellRef, Visualizer, World};

verus! {

pub const DEFAULT_WIDTH: usize = 80;

pub const DEFAULT_HEIGHT: usize = 30;

/// One row of the drawing, ended by a newline.
pub open spec fn row_text(row: Seq<bool>) -> Seq<char> {
    Seq::new(row.len(), |x: int| if row[x] { '#' } else { ' ' }).push('\n')
}

/// The first `n` rows of the drawing.
pub open spec fn rows_text(rows: Seq<Seq<bool>>, n: int) -> Seq<char>
    decreases n,
{
    if n <= 0 {
        Seq::empty()
    } else {
        rows_text(rows, n - 1) + row_text(rows[n - 1])
    }
}

/// A whole frame: every row, then a rule of `width` dashes.
pub open spec fn frame_text(rows: Seq<Seq<bool>>, width: int) -> Seq<char> {
    rows_text(rows, rows.len() as int) + Seq::new(width as nat, |i: int| '-').push('\n')
}

/// Keeps the state of each cell as last shown, row by row, and draws it as
/// text.
pub struct TerminalVisualizer {
    width: usize,
    height: usize,
    cells: Vec<Vec<bool>>,
}

impl TerminalVisualizer {
    pub closed spec fn w(&self) -> int {
        self.width as int
    }

    pub closed spec fn h(&self) -> int {
        self.height as int
    }

    /// The shown state of each cell, row by row.
    pub closed spec fn rows(&self) -> Seq<Seq<bool>> {
        Seq::new(self.cells@.len(), |y: int| self.cells@[y]@)
    }

    /// Whether the rows have the size of the drawing.
    pub open spec fn sized(&self) -> bool {
        &&& self.rows().len() == self.h()
        &&& forall|y: int| 0 <= y < self.h() ==> (#[trigger] self.rows()[y]).len() == self.w()
    }

    /// Whether every cell of `world` is shown as it is.
    pub open spec fn shows(&self, world: &World) -> bool {
        &&& self.sized()
        &&& self.w() == world.w()
        &&& self.h() == world.h()
        &&& forall|x: int, y: int|
            in_grid(x, y, self.w(), self.h()) ==> #[trigger] self.rows()[y][x] == world.alive_at(x, y)
    }

    /// A drawing of the given size, or of the default size, with every cell
    /// dead.
    pub fn new(width: Option<usize>, height: Option<usize>) -> (r: TerminalVisualizer)
        ensures
            r.w() == width.unwrap_or(DEFAULT_WIDTH),
            r.h() == height.unwrap_or(DEFAULT_HEIGHT),
            r.sized(),
            forall|x: int, y: int| in_grid(x, y, r.w(), r.h()) ==> !#[trigger] r.rows()[y][x],
    {
        let width = match width {
            Some(w) => w,
            None => DEFAULT_WIDTH,
        };
        let height = match height {
            Some(h) => h,
            None => DEFAULT_HEIGHT,
        };
        let mut cells: Vec<Vec<bool>> = Vec::new();
        let mut y: usize = 0;
        while y < height
            invariant
                0 <= y <= height,
                cells@.len() == y,
                forall|j: int| 0 <= j < y ==> (#[trigger] cells@[j])@ =~= Seq::new(width as nat, |x: int| false),
            decreases height - y,
        {
            let mut row: Vec<bool> = Vec::new();
            let mut x: usize = 0;
            while x < width
                invariant
                    0 <= x <= width,
                    row@ =~= Seq::new(x as nat, |i: int| false),
                decreases width - x,
            {
                row.push(false);
                x = x + 1;
            }
            cells.push(row);
            y = y + 1;
        }
        TerminalVisualizer { width, height, cells }
    }

    pub fn get_width(&self) -> (r: usize)
        ensures
            r == self.w(),
    {
        self.width
    }

    pub fn get_height(&self) -> (r: usize)
        ensures
            r == self.h(),
    {
        self.height
    }

    /// The text of one frame: each row, then a rule of dashes.
    pub fn draw_world(&self) -> (r: Vec<char>)
        ensures
            r@ == frame_text(self.rows(), self.w()),
    {
        let ghost rows = self.rows();
        let mut chars: Vec<char> = Vec::new();
        let mut y: usize = 0;
        while y < self.cells.len()
            invariant
                0 <= y <= rows.len(),
                rows == self.rows(),
                chars@ == rows_text(rows, y as int),
            decreases rows.len() - y,
        {
            let ghost before = chars@;
            let row = &self.cells[y];
            assert(row@ == rows[y as int]);
            let mut x: usize = 0;
            while x < row.len()
                invariant
                    0 <= x <= row@.len(),
                    chars@ == before + Seq::new(x as nat, |i: int| if row@[i] { '#' } else { ' ' }),
                decreases row@.len() - x,
            {
                if row[x] {
                    chars.push('#');
                } else {
                    chars.push(' ');
                }
                assert(Seq::new((x + 1) as nat, |i: int| if row@[i] { '#' } else { ' ' }) =~= Seq::new(
                    x as nat,
                    |i: int| if row@[i] { '#' } else { ' ' },
                ).push(if row@[x as int] { '#' } else { ' ' }));
                x = x + 1;
            }
            chars.push('\n');
            assert(chars@ =~= rows_text(rows, y + 1));
            y = y + 1;
        }
        let ghost body = chars@;
        let mut i: usize = 0;
        while i < self.width
            invariant
                0 <= i <= self.width,
                chars@ =~= body + Seq::new(i as nat, |k: int| '-'),
            decreases self.width - i,
        {
            chars.push('-');
            i = i + 1;
        }
        chars.push('\n');
        assert(chars@ =~= frame_text(rows, self.w()));
        chars
    }
}

/// Redrawing only the changed cells keeps the drawing true: a drawing that
/// showed the world before a generation, updated with the cells that changed
/// in it, shows the world after it.
pub proof fn lemma_changes_keep_drawing(
    before: TerminalVisualizer,
    after: TerminalVisualizer,
    old_world: World,
    new_world: World,
    changes: Seq<CellRef>,
)
    requires
        before.shows(&old_world),
        new_world.w() == old_world.w(),
        new_world.h() == old_world.h(),
        forall|x: int, y: int|
            in_grid(x, y, old_world.w(), old_world.h()) ==> (positions(changes).contains((x, y))
                <==> #[trigger] new_world.alive_at(x, y) != old_world.alive_at(x, y)),
        after.w() == before.w(),
        after.h() == before.h(),
        after.rows().len() == before.rows().len(),
        forall|y: int| 0 <= y < before.rows().len() ==> (#[trigger] after.rows()[y]).len() == before.rows()[y].len(),
        forall|x: int, y: int|
            0 <= y < before.rows().len() && 0 <= x < before.rows()[y].len() ==> #[trigger] after.rows()[y][x]
                == if positions(changes).contains((x, y)) {
                new_world.alive_at(x, y)
            } else {
                before.rows()[y][x]
            },
    ensures
        after.shows(&new_world),
{
    assert forall|x: int, y: int| in_grid(x, y, after.w(), after.h()) implies #[trigger] after.rows()[y][x]
        == new_world.alive_at(x, y) by {
        assert(before.rows()[y][x] == old_world.alive_at(x, y));
        assert(new_world.alive_at(x, y) != old_world.alive_at(x, y) <==> positions(changes).contains((x, y)));
    }
}

impl Visualizer for TerminalVisualizer {
    /// Takes the size of `world` and shows each of its cells.
    fn update_world(&mut self, world: &World)
        ensures
            final(self).shows(world),
    {
        let width = world.get_width();
        let height = world.get_height();
        let mut cells: Vec<Vec<bool>> = Vec::new();
        let mut y: usize = 0;
        while y < height
            invariant
                world.wf(),
                width == world.w(),
                height == world.h(),
                0 <= y <= height,
                cells@.len() == y,
                forall|j: int| 0 <= j < y ==> (#[trigger] cells@[j])@.len() == width,
                forall|x: int, j: int|
                    0 <= j < y && 0 <= x < width ==> #[trigger] cells@[j]@[x] == world.alive_at(x, j),
            decreases height - y,
        {
            let mut row: Vec<bool> = Vec::new();
            let mut x: usize = 0;
            while x < width
                invariant
                    world.wf(),
                    width == world.w(),
                    height == world.h(),
                    0 <= y < height,
                    0 <= x <= width,
                    row@.len() == x,
                    forall|i: int| 0 <= i < x ==> #[trigger] row@[i] == world.alive_at(i, y as int),
                decreases width - x,
            {
                row.push(world.is_alive(x, y));
                x = x + 1;
            }
            cells.push(row);
            y = y + 1;
        }
        self.width = width;
        self.height = height;
        self.cells = cells;
        assert forall|x: int, y: int| in_grid(x, y, self.w(), self.h()) implies #[trigger] self.rows()[y][x]
            == world.alive_at(x, y) by {
            assert(self.rows()[y] == self.cells@[y]@);
        }
    }

    /// Shows anew each listed cell that lies on the drawing.
    fn update_cells(&mut self, world: &World, cells: &Vec<CellRef>)
        ensures
            final(self).w() == old(self).w(),
            final(self).h() == old(self).h(),
            final(self).rows().len() == old(self).rows().len(),
            forall|y: int|
                0 <= y < old(self).rows().len() ==> (#[trigger] final(self).rows()[y]).len() == old(self).rows()[y].len(),
            forall|x: int, y: int|
                0 <= y < old(self).rows().len() && 0 <= x < old(self).rows()[y].len() ==> #[trigger] final(self).rows()[y][x] == if positions(cells@).contains((x, y)) {
                    world.alive_at(x, y)
                } else {
                    old(self).rows()[y][x]
                },
    {
        let ghost rows0 = self.rows();
        let ghost listed = positions(cells@);
        assert(listed.take(0) =~= Seq::<(int, int)>::empty());
        let mut k: usize = 0;
        while k < cells.len()
            invariant
                0 <= k <= cells@.len(),
                listed == positions(cells@),
                self.w() == old(self).w(),
                self.h() == old(self).h(),
                self.rows().len() == rows0.len(),
                forall|y: int| 0 <= y < rows0.len() ==> (#[trigger] self.rows()[y]).len() == rows0[y].len(),
                forall|x: int, y: int|
                    0 <= y < rows0.len() && 0 <= x < rows0[y].len() ==> #[trigger] self.rows()[y][x]
                        == if listed.take(k as int).contains((x, y)) {
                        world.alive_at(x, y)
                    } else {
                        rows0[y][x]
                    },
                world.wf(),
                forall|j: int|
                    0 <= j < cells@.len() ==> in_grid(
                        #[trigger] cells@[j].x as int,
                        cells@[j].y as int,
                        world.w(),
                        world.h(),
                    ),
            decreases cells@.len() - k,
        {
            let c = cells[k];
            assert(in_grid(cells@[k as int].x as int, cells@[k as int].y as int, world.w(), world.h()));
            let ghost before = self.rows();
            let ghost bc = self.cells@;
            let alive = world.is_alive(c.x, c.y);
            let on = c.y < self.cells.len() && c.x < self.cells[c.y].len();
            if on {
                let mut row: Vec<bool> = Vec::new();
                self.cells.set_and_swap(c.y, &mut row);
                row.set(c.x, alive);
                self.cells.set_and_swap(c.y, &mut row);
            }
            proof {
                let p = (c.x as int, c.y as int);
                assert(listed[k as int] == p);
                assert(listed.take(k + 1) =~= listed.take(k as int).push(p));
                assert forall|j: int| 0 <= j < rows0.len() implies #[trigger] self.rows()[j] == if on && j
                    == p.1 {
                    before[j].update(p.0, alive)
                } else {
                    before[j]
                } by {
                    assert(self.rows()[j] == self.cells@[j]@);
                    assert(before[j] == bc[j]@);
                }
                assert forall|x: int, y: int| 0 <= y < rows0.len() && 0 <= x < rows0[y].len() implies
                    #[trigger] self.rows()[y][x] == if listed.take(k + 1).contains((x, y)) {
                    world.alive_at(x, y)
                } else {
                    rows0[y][x]
                } by {
                    assert(self.rows()[y] == self.cells@[y]@);
                    if listed.take(k + 1).contains((x, y)) && (x, y) != p {
                        let a = choose|a: int| 0 <= a < k + 1 && #[trigger] listed.take(k + 1)[a] == (x, y);
                        assert(listed.take(k as int)[a] == (x, y));
                    }
                    if listed.take(k as int).contains((x, y)) {
                        let a = choose|a: int| 0 <= a < k && #[trigger] listed.take(k as int)[a] == (x, y);
                        assert(listed.take(k + 1)[a] == (x, y));
                    }
                    if (x, y) == p {
                        assert(listed.take(k + 1)[k as int] == p);
                    }
                }
            }
            k = k + 1;
        }
        assert(listed.take(cells@.len() as int) =~= listed);
    }
}

} // verus!
