//! The grid engine: cell buffer ownership, mutation, neighbour counting,
//! generation stepping, resize and translation on a toroidal grid.

use vstd::prelude::*;
use crate::coords::{
    wrap, wrap_coord, wrap_coord_wide, rowmajor, lemma_wrap_bound, lemma_wrap_small,
    lemma_wrap_period, lemma_wrap_add, lemma_wrap_sub, lemma_rowmajor_inverse,
    lemma_rowmajor_in_range, lemma_rowmajor_injective, lemma_index_split,
};

verus! {

/// The state of one grid cell.
#[derive(Clone, Copy, Debug, PartialEq, Eq, Structural)]
pub enum Cell {
    Dead,
    Alive,
}

impl Cell {
    /// The opposite state.
    pub open spec fn spec_flipped(self) -> Cell {
        match self {
            Cell::Alive => Cell::Dead,
            Cell::Dead => Cell::Alive,
        }
    }

    /// Flips the cell to the opposite state.
    pub fn toggle(&mut self)
        ensures
            *final(self) == old(self).spec_flipped(),
    {
        *self = match *self {
            Cell::Alive => Cell::Dead,
            Cell::Dead => Cell::Alive,
        };
    }
}

/// The named 0/1 projection of a cell, used as a neighbour-count unit.
pub open spec fn cell_one(c: Cell) -> int {
    match c {
        Cell::Alive => 1,
        Cell::Dead => 0,
    }
}

/// A toroidal Game of Life grid: `width * height` cells in row-major order.
pub struct Universe {
    pub width: i32,
    pub height: i32,
    pub cells: Vec<Cell>,
}

/// A buffer of `n` dead cells.
fn dead_cells(n: usize) -> (v: Vec<Cell>)
    ensures
        v@ == Seq::new(n as nat, |i: int| Cell::Dead),
{
    let mut v: Vec<Cell> = Vec::new();
    let mut i: usize = 0;
    while i < n
        invariant
            i <= n,
            v@ == Seq::new(i as nat, |j: int| Cell::Dead),
        decreases n - i,
    {
        v.push(Cell::Dead);
        i = i + 1;
        proof {
            assert(v@ =~= Seq::new(i as nat, |j: int| Cell::Dead));
        }
    }
    v
}

/// Clamps a requested dimension the way the engine's constructor does: the
/// value is reinterpreted as a signed machine word and anything not strictly
/// positive becomes 1.
pub open spec fn clamp_dim(v: int) -> int {
    if 1 <= v <= i32::MAX {
        v
    } else {
        1
    }
}

impl Universe {
    /// The structural invariant: positive dimensions whose product fits the
    /// index arithmetic, and a buffer of exactly `width * height` cells.
    pub open spec fn wf(self) -> bool {
        &&& 1 <= self.width
        &&& 1 <= self.height
        &&& self.width * self.height <= i32::MAX
        &&& self.cells@.len() == self.width * self.height
    }

    pub open spec fn spec_width(self) -> int {
        self.width as int
    }

    pub open spec fn spec_height(self) -> int {
        self.height as int
    }

    pub open spec fn spec_cells(self) -> Seq<Cell> {
        self.cells@
    }

    /// The cell at toroidally wrapped coordinates `(x, y)`; any integers are
    /// meaningful.
    pub open spec fn spec_cell(self, x: int, y: int) -> Cell {
        self.cells@[rowmajor(wrap(x, self.width as int), wrap(y, self.height as int),
            self.width as int)]
    }

    /// Creates an all-dead grid, clamping each dimension to at least 1.
    pub fn new(width: u32, height: u32) -> (r: Universe)
        requires
            clamp_dim(width as i32 as int) * clamp_dim(height as i32 as int) <= i32::MAX,
        ensures
            r.wf(),
            r.spec_width() == clamp_dim(width as i32 as int),
            r.spec_height() == clamp_dim(height as i32 as int),
            forall|i: int| 0 <= i < r.spec_cells().len() ==> r.spec_cells()[i] == Cell::Dead,
    {
        let w: i32 = {
            let wi = width as i32;
            if wi < 1 {
                1
            } else {
                wi
            }
        };
        let h: i32 = {
            let hi = height as i32;
            if hi < 1 {
                1
            } else {
                hi
            }
        };
        let n: usize = (w as usize) * (h as usize);
        let cells = dead_cells(n);
        Universe { width: w, height: h, cells }
    }

    /// The grid width.
    pub fn width(&self) -> (r: i32)
        ensures
            r == self.spec_width(),
    {
        self.width
    }

    /// The grid height.
    pub fn height(&self) -> (r: i32)
        ensures
            r == self.spec_height(),
    {
        self.height
    }

    /// Read-only view of the whole cell buffer, for a renderer to consume.
    pub fn get_cells(&self) -> (r: &[Cell])
        ensures
            r@ == self.spec_cells(),
    {
        self.cells.as_slice()
    }

    /// The row-major buffer index of the wrapped coordinates `(col, row)`.
    pub(crate) fn get_index(&self, col: i32, row: i32) -> (idx: usize)
        requires
            self.wf(),
        ensures
            idx == rowmajor(wrap(col as int, self.spec_width()),
                wrap(row as int, self.spec_height()), self.spec_width()),
            idx < self.spec_cells().len(),
    {
        let c = wrap_coord(col, self.width);
        let r = wrap_coord(row, self.height);
        proof {
            lemma_rowmajor_in_range(c as int, r as int, self.width as int, self.height as int);
        }
        (r as usize) * (self.width as usize) + (c as usize)
    }

    /// The wrapped coordinates `(x, y)` of an in-range buffer index.
    pub(crate) fn get_coordinates(&self, index: usize) -> (r: (i32, i32))
        requires
            self.wf(),
            index < self.spec_cells().len(),
        ensures
            r.0 == index as int % self.spec_width(),
            r.1 == index as int / self.spec_width(),
            0 <= r.0 < self.spec_width(),
            0 <= r.1 < self.spec_height(),
            rowmajor(r.0 as int, r.1 as int, self.spec_width()) == index,
    {
        proof {
            lemma_index_split(index as int, self.width as int, self.height as int);
        }
        let x = (index % (self.width as usize)) as i32;
        let y = (index / (self.width as usize)) as i32;
        (x, y)
    }

    /// The state of the cell at wrapped coordinates; never fails, any
    /// integers are accepted.
    pub fn get_cell(&self, col: i32, row: i32) -> (r: Cell)
        requires
            self.wf(),
        ensures
            r == self.spec_cell(col as int, row as int),
    {
        let idx = self.get_index(col, row);
        self.cells[idx]
    }

    /// Sets the cell at wrapped coordinates to `state`; never fails.
    pub fn set_cell(&mut self, col: i32, row: i32, state: Cell)
        requires
            old(self).wf(),
        ensures
            final(self).wf(),
            final(self).spec_width() == old(self).spec_width(),
            final(self).spec_height() == old(self).spec_height(),
            final(self).spec_cells() == set_cell_seq(old(self).spec_cells(), old(self).spec_width(),
                old(self).spec_height(), col as int, row as int, state),
    {
        let idx = self.get_index(col, row);
        self.cells.set(idx, state);
    }

    /// Flips the cell at wrapped coordinates; never fails.
    pub fn toggle_cell(&mut self, col: i32, row: i32)
        requires
            old(self).wf(),
        ensures
            final(self).wf(),
            final(self).spec_width() == old(self).spec_width(),
            final(self).spec_height() == old(self).spec_height(),
            final(self).spec_cells() == toggle_cell_seq(old(self).spec_cells(), old(self).spec_width(),
                old(self).spec_height(), col as int, row as int),
    {
        let idx = self.get_index(col, row);
        let mut c = self.cells[idx];
        c.toggle();
        self.cells.set(idx, c);
    }

    /// Resets every cell to the dead state.
    pub fn clear(&mut self)
        requires
            old(self).wf(),
        ensures
            final(self).wf(),
            final(self).spec_width() == old(self).spec_width(),
            final(self).spec_height() == old(self).spec_height(),
            forall|i: int| 0 <= i < final(self).spec_cells().len()
                ==> final(self).spec_cells()[i] == Cell::Dead,
    {
        let n = self.cells.len();
        self.cells = dead_cells(n);
    }

    /// Fills the grid from an injected sequence of random bits, one per
    /// cell: a `true` bit makes the cell alive. Randomness is a capability
    /// supplied by the caller, never ambient state.
    pub fn randomize(&mut self, bits: &Vec<bool>)
        requires
            old(self).wf(),
            bits@.len() == old(self).spec_cells().len(),
        ensures
            final(self).wf(),
            final(self).spec_width() == old(self).spec_width(),
            final(self).spec_height() == old(self).spec_height(),
            forall|i: int| 0 <= i < final(self).spec_cells().len()
                ==> final(self).spec_cells()[i] == (if bits@[i] {
                    Cell::Alive
                } else {
                    Cell::Dead
                }),
    {
        let n = self.cells.len();
        let mut v: Vec<Cell> = Vec::new();
        let mut i: usize = 0;
        while i < n
            invariant
                i <= n,
                n == bits@.len(),
                v@.len() == i,
                forall|j: int| 0 <= j < i ==> v@[j] == (if bits@[j] {
                    Cell::Alive
                } else {
                    Cell::Dead
                }),
            decreases n - i,
        {
            if bits[i] {
                v.push(Cell::Alive);
            } else {
                v.push(Cell::Dead);
            }
            i = i + 1;
        }
        self.cells = v;
    }
}

/// The buffer index that a translation by `(dx, dy)` reads for the target
/// cell `(x, y)`: the wrapped position `(x - dx, y - dy)`.
pub open spec fn translate_src(w: int, h: int, dx: int, dy: int, x: int, y: int) -> int {
    rowmajor(wrap(x - dx, w), wrap(y - dy, h), w)
}

/// The cell of a row-major buffer at toroidally wrapped coordinates.
pub open spec fn cell_at(cells: Seq<Cell>, w: int, h: int, x: int, y: int) -> Cell {
    cells[rowmajor(wrap(x, w), wrap(y, h), w)]
}

/// The B3/S23 transition: an alive cell survives on 2 or 3 live neighbours,
/// a dead cell is born on exactly 3; every other combination is dead.
pub open spec fn next_cell(c: Cell, n: int) -> Cell {
    match c {
        Cell::Alive => if 2 <= n <= 3 {
            Cell::Alive
        } else {
            Cell::Dead
        },
        Cell::Dead => if n == 3 {
            Cell::Alive
        } else {
            Cell::Dead
        },
    }
}

/// Exec counterpart of `cell_one`.
fn cell_unit(c: Cell) -> (r: u8)
    ensures
        r == cell_one(c),
{
    match c {
        Cell::Alive => 1,
        Cell::Dead => 0,
    }
}

impl Universe {
    /// The number of live cells in the Moore neighbourhood of `(x, y)`,
    /// toroidally wrapped.
    pub open spec fn spec_neighbour_count(self, x: int, y: int) -> int {
        cell_one(self.spec_cell(x - 1, y - 1)) + cell_one(self.spec_cell(x, y - 1))
            + cell_one(self.spec_cell(x + 1, y - 1)) + cell_one(self.spec_cell(x - 1, y))
            + cell_one(self.spec_cell(x + 1, y)) + cell_one(self.spec_cell(x - 1, y + 1))
            + cell_one(self.spec_cell(x, y + 1)) + cell_one(self.spec_cell(x + 1, y + 1))
    }

    /// The whole next-generation buffer under the B3/S23 rule.
    pub open spec fn spec_tick(self) -> Seq<Cell> {
        Seq::new(self.cells@.len(), |i: int| next_cell(self.cells@[i],
            self.spec_neighbour_count(i % self.spec_width(), i / self.spec_width())))
    }

    /// Counts the 8 toroidally wrapped Moore neighbours of `(col, row)`.
    fn live_neighbour_count(&self, col: i32, row: i32) -> (r: u8)
        requires
            self.wf(),
            0 <= col < self.spec_width(),
            0 <= row < self.spec_height(),
        ensures
            r == self.spec_neighbour_count(col as int, row as int),
            r <= 8,
    {
        let mut count: u8 = 0;
        count = count + cell_unit(self.get_cell(col - 1, row - 1));
        count = count + cell_unit(self.get_cell(col, row - 1));
        count = count + cell_unit(self.get_cell(col + 1, row - 1));
        count = count + cell_unit(self.get_cell(col - 1, row));
        count = count + cell_unit(self.get_cell(col + 1, row));
        count = count + cell_unit(self.get_cell(col - 1, row + 1));
        count = count + cell_unit(self.get_cell(col, row + 1));
        count = count + cell_unit(self.get_cell(col + 1, row + 1));
        count
    }

    /// Sets the width of the universe, clamped to at least 1. Cells of the
    /// overlapping rectangle keep their state; columns gained by growing are
    /// dead.
    pub fn set_width(&mut self, new_width: i32)
        requires
            old(self).wf(),
            clamp_dim(new_width as int) * old(self).spec_height() <= i32::MAX,
        ensures
            final(self).wf(),
            final(self).spec_width() == clamp_dim(new_width as int),
            final(self).spec_height() == old(self).spec_height(),
            forall|x: int, y: int|
                0 <= x < final(self).spec_width() && 0 <= y < final(self).spec_height()
                    ==> final(self).spec_cell(x, y) == (if x < old(self).spec_width() {
                        old(self).spec_cell(x, y)
                    } else {
                        Cell::Dead
                    }),
    {
        let ghost g = *self;
        let nw: i32 = if new_width < 1 {
            1
        } else {
            new_width
        };
        let n: usize = (nw as usize) * (self.height as usize);
        let mut cells = dead_cells(n);
        let copy_w: i32 = if nw < self.width {
            nw
        } else {
            self.width
        };
        proof {
            assert forall|x2: int, y2: int| 0 <= x2 < nw && 0 <= y2 < g.spec_height()
                implies 0 <= #[trigger] rowmajor(x2, y2, nw as int) < cells@.len() by {
                lemma_rowmajor_in_range(x2, y2, nw as int, g.spec_height());
            }
        }
        let mut y: i32 = 0;
        while y < self.height
            invariant
                *self == g,
                g.wf(),
                1 <= nw,
                nw * g.spec_height() <= i32::MAX,
                copy_w == if nw < g.spec_width() { nw as int } else { g.spec_width() },
                0 <= y <= g.spec_height(),
                cells@.len() == nw * g.spec_height(),
                forall|x2: int, y2: int|
                    0 <= x2 < nw && 0 <= y2 < g.spec_height()
                        ==> cells@[rowmajor(x2, y2, nw as int)] == (if y2 < y && x2
                            < g.spec_width() {
                            g.spec_cells()[rowmajor(x2, y2, g.spec_width())]
                        } else {
                            Cell::Dead
                        }),
            decreases g.spec_height() - y,
        {
            let mut x: i32 = 0;
            while x < copy_w
                invariant
                    *self == g,
                    g.wf(),
                    1 <= nw,
                    nw * g.spec_height() <= i32::MAX,
                    copy_w == if nw < g.spec_width() { nw as int } else { g.spec_width() },
                    0 <= y < g.spec_height(),
                    0 <= x <= copy_w,
                    cells@.len() == nw * g.spec_height(),
                    forall|x2: int, y2: int|
                        0 <= x2 < nw && 0 <= y2 < g.spec_height()
                            ==> cells@[rowmajor(x2, y2, nw as int)] == (if (y2 < y || (y2 == y && x2
                                < x)) && x2 < g.spec_width() {
                                g.spec_cells()[rowmajor(x2, y2, g.spec_width())]
                            } else {
                                Cell::Dead
                            }),
                decreases copy_w - x,
            {
                let src = self.get_index(x, y);
                proof {
                    lemma_wrap_small(x as int, g.spec_width());
                    lemma_wrap_small(y as int, g.spec_height());
                    lemma_rowmajor_in_range(x as int, y as int, nw as int, g.spec_height());
                }
                let dst = (y as usize) * (nw as usize) + (x as usize);
                let c = self.cells[src];
                let ghost before = cells@;
                cells.set(dst, c);
                proof {
                    assert forall|x2: int, y2: int|
                        0 <= x2 < nw && 0 <= y2 < g.spec_height() && (x2, y2) != (x as int, y as int)
                            implies cells@[rowmajor(x2, y2, nw as int)] == before[rowmajor(x2, y2,
                                nw as int)] by {
                        lemma_rowmajor_injective(x2, y2, x as int, y as int, nw as int);
                        lemma_rowmajor_in_range(x2, y2, nw as int, g.spec_height());
                    }
                }
                x = x + 1;
            }
            y = y + 1;
        }
        self.cells = cells;
        self.width = nw;
        proof {
            assert forall|x: int, y: int|
                0 <= x < nw && 0 <= y < g.spec_height() implies self.spec_cell(x, y) == (if x
                    < g.spec_width() {
                    g.spec_cell(x, y)
                } else {
                    Cell::Dead
                }) by {
                lemma_wrap_small(x, nw as int);
                lemma_wrap_small(y, g.spec_height());
                if x < g.spec_width() {
                    lemma_wrap_small(x, g.spec_width());
                }
            }
        }
    }

    /// Sets the height of the universe, clamped to at least 1. Cells of the
    /// overlapping rectangle keep their state; rows gained by growing are
    /// dead.
    pub fn set_height(&mut self, new_height: i32)
        requires
            old(self).wf(),
            old(self).spec_width() * clamp_dim(new_height as int) <= i32::MAX,
        ensures
            final(self).wf(),
            final(self).spec_width() == old(self).spec_width(),
            final(self).spec_height() == clamp_dim(new_height as int),
            forall|x: int, y: int|
                0 <= x < final(self).spec_width() && 0 <= y < final(self).spec_height()
                    ==> final(self).spec_cell(x, y) == (if y < old(self).spec_height() {
                        old(self).spec_cell(x, y)
                    } else {
                        Cell::Dead
                    }),
    {
        let ghost g = *self;
        let nh: i32 = if new_height < 1 {
            1
        } else {
            new_height
        };
        let n: usize = (self.width as usize) * (nh as usize);
        let mut cells = dead_cells(n);
        let copy_h: i32 = if nh < self.height {
            nh
        } else {
            self.height
        };
        proof {
            assert forall|x2: int, y2: int| 0 <= x2 < g.spec_width() && 0 <= y2 < nh
                implies 0 <= #[trigger] rowmajor(x2, y2, g.spec_width()) < cells@.len() by {
                lemma_rowmajor_in_range(x2, y2, g.spec_width(), nh as int);
            }
        }
        let mut y: i32 = 0;
        while y < copy_h
            invariant
                *self == g,
                g.wf(),
                1 <= nh,
                g.spec_width() * nh <= i32::MAX,
                copy_h == if nh < g.spec_height() { nh as int } else { g.spec_height() },
                0 <= y <= copy_h,
                cells@.len() == g.spec_width() * nh,
                forall|x2: int, y2: int|
                    0 <= x2 < g.spec_width() && 0 <= y2 < nh
                        ==> cells@[rowmajor(x2, y2, g.spec_width())] == (if y2 < y && y2
                            < g.spec_height() {
                            g.spec_cells()[rowmajor(x2, y2, g.spec_width())]
                        } else {
                            Cell::Dead
                        }),
            decreases copy_h - y,
        {
            let mut x: i32 = 0;
            while x < self.width
                invariant
                    *self == g,
                    g.wf(),
                    1 <= nh,
                    g.spec_width() * nh <= i32::MAX,
                    copy_h == if nh < g.spec_height() { nh as int } else { g.spec_height() },
                    0 <= y < copy_h,
                    y < g.spec_height(),
                    y < nh,
                    0 <= x <= g.spec_width(),
                    cells@.len() == g.spec_width() * nh,
                    forall|x2: int, y2: int|
                        0 <= x2 < g.spec_width() && 0 <= y2 < nh
                            ==> cells@[rowmajor(x2, y2, g.spec_width())] == (if (y2 < y || (y2 == y
                                && x2 < x)) && y2 < g.spec_height() {
                                g.spec_cells()[rowmajor(x2, y2, g.spec_width())]
                            } else {
                                Cell::Dead
                            }),
                decreases g.spec_width() - x,
            {
                let src = self.get_index(x, y);
                proof {
                    lemma_wrap_small(x as int, g.spec_width());
                    lemma_wrap_small(y as int, g.spec_height());
                    lemma_rowmajor_in_range(x as int, y as int, g.spec_width(), nh as int);
                }
                let dst = (y as usize) * (self.width as usize) + (x as usize);
                let c = self.cells[src];
                let ghost before = cells@;
                cells.set(dst, c);
                proof {
                    assert forall|x2: int, y2: int|
                        0 <= x2 < g.spec_width() && 0 <= y2 < nh && (x2, y2) != (x as int, y as int)
                            implies cells@[rowmajor(x2, y2, g.spec_width())] == before[rowmajor(x2,
                                y2, g.spec_width())] by {
                        lemma_rowmajor_injective(x2, y2, x as int, y as int, g.spec_width());
                        lemma_rowmajor_in_range(x2, y2, g.spec_width(), nh as int);
                    }
                }
                x = x + 1;
            }
            y = y + 1;
        }
        self.cells = cells;
        self.height = nh;
        proof {
            assert forall|x: int, y: int|
                0 <= x < g.spec_width() && 0 <= y < nh implies self.spec_cell(x, y) == (if y
                    < g.spec_height() {
                    g.spec_cell(x, y)
                } else {
                    Cell::Dead
                }) by {
                lemma_wrap_small(x, g.spec_width());
                lemma_wrap_small(y, nh as int);
                if y < g.spec_height() {
                    lemma_wrap_small(y, g.spec_height());
                }
            }
        }
    }

    /// Shifts every alive cell by `(dx, dy)` with toroidal wrap. A fresh
    /// buffer is computed, never an in-place overlay, so a shift may overlap
    /// its own source region safely.
    pub fn translate(&mut self, dx: i32, dy: i32)
        requires
            old(self).wf(),
        ensures
            final(self).wf(),
            final(self).spec_width() == old(self).spec_width(),
            final(self).spec_height() == old(self).spec_height(),
            forall|x: int, y: int|
                0 <= x < old(self).spec_width() && 0 <= y < old(self).spec_height()
                    ==> final(self).spec_cell(x, y) == old(self).spec_cell(x - dx, y - dy),
    {
        let ghost g = *self;
        let ghost w = g.spec_width();
        let ghost h = g.spec_height();
        let n = self.cells.len();
        let mut next = dead_cells(n);
        proof {
            assert forall|x2: int, y2: int| 0 <= x2 < w && 0 <= y2 < h
                implies 0 <= #[trigger] rowmajor(x2, y2, w) < n by {
                lemma_rowmajor_in_range(x2, y2, w, h);
            }
            assert forall|x2: int, y2: int| 0 <= x2 < w && 0 <= y2 < h
                implies 0 <= #[trigger] translate_src(w, h, dx as int, dy as int, x2, y2) < n by {
                lemma_wrap_bound(x2 - dx, w);
                lemma_wrap_bound(y2 - dy, h);
                lemma_rowmajor_in_range(wrap(x2 - dx, w), wrap(y2 - dy, h), w, h);
            }
        }
        let mut i: usize = 0;
        while i < n
            invariant
                *self == g,
                g.wf(),
                w == g.spec_width(),
                h == g.spec_height(),
                n == g.spec_cells().len(),
                i <= n,
                next@.len() == n,
                forall|x2: int, y2: int|
                    0 <= x2 < w && 0 <= y2 < h
                        ==> 0 <= #[trigger] translate_src(w, h, dx as int, dy as int, x2, y2) < n,
                forall|x2: int, y2: int|
                    0 <= x2 < w && 0 <= y2 < h
                        ==> #[trigger] next@[rowmajor(x2, y2, w)] == (if translate_src(w, h,
                            dx as int, dy as int, x2, y2) < i && g.spec_cells()[translate_src(w, h,
                            dx as int, dy as int, x2, y2)] is Alive {
                            Cell::Alive
                        } else {
                            Cell::Dead
                        }),
            decreases n - i,
        {
            let is_alive = match self.cells[i] {
                Cell::Alive => true,
                Cell::Dead => false,
            };
            if is_alive {
                let (sx, sy) = self.get_coordinates(i);
                let tx = wrap_coord_wide(sx as i64 + dx as i64, self.width as i64) as i32;
                let ty = wrap_coord_wide(sy as i64 + dy as i64, self.height as i64) as i32;
                proof {
                    lemma_wrap_bound(sx + dx, w);
                    lemma_wrap_bound(sy + dy, h);
                    lemma_rowmajor_in_range(tx as int, ty as int, w, h);
                    // The source index of the target pair is exactly `i`.
                    lemma_wrap_sub(sx + dx, dx as int, w);
                    lemma_wrap_small(sx as int, w);
                    lemma_wrap_sub(sy + dy, dy as int, h);
                    lemma_wrap_small(sy as int, h);
                    assert(translate_src(w, h, dx as int, dy as int, tx as int, ty as int) == i);
                }
                let ti = (ty as usize) * (self.width as usize) + (tx as usize);
                let ghost before = next@;
                next.set(ti, Cell::Alive);
                proof {
                    assert forall|x2: int, y2: int|
                        0 <= x2 < w && 0 <= y2 < h && (x2, y2) != (tx as int, ty as int)
                            implies #[trigger] next@[rowmajor(x2, y2, w)] == before[rowmajor(x2, y2,
                                w)] && translate_src(w, h, dx as int, dy as int, x2, y2) != i by {
                        lemma_rowmajor_injective(x2, y2, tx as int, ty as int, w);
                        lemma_rowmajor_in_range(x2, y2, w, h);
                        // If the source index matched, the pair would be the target pair.
                        if translate_src(w, h, dx as int, dy as int, x2, y2) == i {
                            lemma_rowmajor_inverse(wrap(x2 - dx, w), wrap(y2 - dy, h), w);
                            lemma_rowmajor_inverse(sx as int, sy as int, w);
                            lemma_wrap_bound(x2 - dx, w);
                            lemma_wrap_bound(y2 - dy, h);
                            lemma_wrap_add(x2 - dx, dx as int, w);
                            lemma_wrap_small(x2, w);
                            lemma_wrap_add(y2 - dy, dy as int, h);
                            lemma_wrap_small(y2, h);
                            assert(false);
                        }
                    }
                }
            }
            i = i + 1;
        }
        self.cells = next;
        proof {
            assert forall|x: int, y: int|
                0 <= x < w && 0 <= y < h implies self.spec_cell(x, y) == g.spec_cell(x - dx, y
                    - dy) by {
                lemma_wrap_small(x, w);
                lemma_wrap_small(y, h);
            }
        }
    }

    /// Advances the grid one generation. A complete replacement buffer is
    /// computed from the current one before the visible state changes, so no
    /// caller ever observes a partially updated generation.
    pub fn tick(&mut self)
        requires
            old(self).wf(),
        ensures
            final(self).wf(),
            final(self).spec_width() == old(self).spec_width(),
            final(self).spec_height() == old(self).spec_height(),
            final(self).spec_cells() == old(self).spec_tick(),
            forall|x: int, y: int|
                0 <= x < old(self).spec_width() && 0 <= y < old(self).spec_height()
                    ==> final(self).spec_cell(x, y) == next_cell(old(self).spec_cell(x, y),
                        old(self).spec_neighbour_count(x, y)),
    {
        let ghost g = *self;
        let mut next: Vec<Cell> = Vec::new();
        let mut row: i32 = 0;
        while row < self.height
            invariant
                *self == g,
                g.wf(),
                0 <= row <= g.spec_height(),
                next@.len() == row * g.spec_width(),
                forall|j: int| 0 <= j < next@.len() ==> next@[j] == g.spec_tick()[j],
            decreases g.spec_height() - row,
        {
            let mut col: i32 = 0;
            proof {
                assert(row * g.spec_width() + g.spec_width() == (row + 1) * g.spec_width())
                    by (nonlinear_arith);
                assert((row + 1) * g.spec_width() <= g.spec_height() * g.spec_width())
                    by (nonlinear_arith)
                    requires
                        row + 1 <= g.spec_height(),
                        g.spec_width() >= 1,
                ;
                assert(g.spec_height() * g.spec_width() == g.spec_width() * g.spec_height())
                    by (nonlinear_arith);
            }
            while col < self.width
                invariant
                    *self == g,
                    g.wf(),
                    0 <= row < g.spec_height(),
                    0 <= col <= g.spec_width(),
                    next@.len() == row * g.spec_width() + col,
                    row * g.spec_width() + g.spec_width() <= g.spec_cells().len(),
                    forall|j: int| 0 <= j < next@.len() ==> next@[j] == g.spec_tick()[j],
                decreases g.spec_width() - col,
            {
                let idx = self.get_index(col, row);
                proof {
                    lemma_wrap_small(col as int, g.spec_width());
                    lemma_wrap_small(row as int, g.spec_height());
                    lemma_rowmajor_inverse(col as int, row as int, g.spec_width());
                }
                let cell = self.cells[idx];
                let ln = self.live_neighbour_count(col, row);
                let new_cell = match cell {
                    Cell::Alive => if ln < 2 {
                        Cell::Dead
                    } else if ln <= 3 {
                        Cell::Alive
                    } else {
                        Cell::Dead
                    },
                    Cell::Dead => if ln == 3 {
                        Cell::Alive
                    } else {
                        Cell::Dead
                    },
                };
                next.push(new_cell);
                col = col + 1;
            }
            row = row + 1;
        }
        proof {
            assert(g.spec_height() * g.spec_width() == g.spec_width() * g.spec_height())
                by (nonlinear_arith);
            assert(next@ =~= g.spec_tick());
        }
        self.cells = next;
        proof {
            assert forall|x: int, y: int|
                0 <= x < g.spec_width() && 0 <= y < g.spec_height()
                    implies self.spec_cell(x, y) == next_cell(g.spec_cell(x, y),
                        g.spec_neighbour_count(x, y)) by {
                lemma_wrap_small(x, g.spec_width());
                lemma_wrap_small(y, g.spec_height());
                lemma_rowmajor_inverse(x, y, g.spec_width());
                lemma_rowmajor_in_range(x, y, g.spec_width(), g.spec_height());
            }
        }
    }
}

/// The buffer after a toroidally wrapped single-cell write.
pub open spec fn set_cell_seq(cells: Seq<Cell>, w: int, h: int, x: int, y: int, c: Cell)
    -> Seq<Cell> {
    cells.update(rowmajor(wrap(x, w), wrap(y, h), w), c)
}

/// The buffer after a toroidally wrapped single-cell flip.
pub open spec fn toggle_cell_seq(cells: Seq<Cell>, w: int, h: int, x: int, y: int) -> Seq<Cell> {
    cells.update(rowmajor(wrap(x, w), wrap(y, h), w),
        cells[rowmajor(wrap(x, w), wrap(y, h), w)].spec_flipped())
}

/// The failure of a batch mutation handed a malformed coordinate pair.
#[derive(Clone, Copy, Debug, PartialEq, Eq, Structural)]
pub enum CoordinateError {
    InvalidCoordinate,
}

/// The length of the longest leading run of well-formed coordinate pairs:
/// a pair is well-formed when it holds exactly two coordinates.
pub open spec fn valid_pairs_prefix(ps: Seq<Seq<i32>>) -> int
    decreases ps.len(),
{
    if ps.len() == 0 {
        0
    } else if ps.first().len() == 2 {
        1 + valid_pairs_prefix(ps.drop_first())
    } else {
        0
    }
}

/// Characterises `valid_pairs_prefix` by the first malformed position.
proof fn lemma_valid_pairs_prefix(ps: Seq<Seq<i32>>, i: int)
    requires
        0 <= i <= ps.len(),
        forall|j: int| 0 <= j < i ==> #[trigger] ps[j].len() == 2,
        i == ps.len() || ps[i].len() != 2,
    ensures
        valid_pairs_prefix(ps) == i,
    decreases ps.len(),
{
    if ps.len() == 0 {
    } else if i == 0 {
        if ps.first().len() == 2 {
            assert(ps[0].len() == 2);
        }
    } else {
        assert(ps[0].len() == 2);
        assert(forall|j: int| 0 <= j < i - 1 ==> #[trigger] ps.drop_first()[j].len() == 2);
        lemma_valid_pairs_prefix(ps.drop_first(), i - 1);
    }
}

/// The buffer after the first `n` pairs have been set to `c`, in order.
pub open spec fn apply_set_n(cells: Seq<Cell>, w: int, h: int, ps: Seq<Seq<i32>>, c: Cell, n: int)
    -> Seq<Cell>
    decreases n,
{
    if n <= 0 {
        cells
    } else {
        set_cell_seq(apply_set_n(cells, w, h, ps, c, n - 1), w, h, ps[n - 1][0] as int,
            ps[n - 1][1] as int, c)
    }
}

/// The buffer after the first `n` pairs have been toggled, in order.
pub open spec fn apply_toggle_n(cells: Seq<Cell>, w: int, h: int, ps: Seq<Seq<i32>>, n: int)
    -> Seq<Cell>
    decreases n,
{
    if n <= 0 {
        cells
    } else {
        toggle_cell_seq(apply_toggle_n(cells, w, h, ps, n - 1), w, h, ps[n - 1][0] as int,
            ps[n - 1][1] as int)
    }
}

impl Universe {
    /// Sets every listed cell to `state`. Each pair must hold exactly two
    /// coordinates; the first malformed pair aborts the batch with
    /// `InvalidCoordinate`, leaving the already-applied prefix in place.
    pub fn set_cells(&mut self, pairs: &Vec<Vec<i32>>, state: Cell) -> (r: Result<
        (),
        CoordinateError,
    >)
        requires
            old(self).wf(),
        ensures
            final(self).wf(),
            final(self).spec_width() == old(self).spec_width(),
            final(self).spec_height() == old(self).spec_height(),
            final(self).spec_cells() == apply_set_n(old(self).spec_cells(),
                old(self).spec_width(), old(self).spec_height(),
                pairs@.map_values(|p: Vec<i32>| p@), state,
                valid_pairs_prefix(pairs@.map_values(|p: Vec<i32>| p@))),
            r is Ok <==> valid_pairs_prefix(pairs@.map_values(|p: Vec<i32>| p@)) == pairs@.len(),
            r is Err ==> r == Result::<(), CoordinateError>::Err(
                CoordinateError::InvalidCoordinate),
    {
        let ghost g = *self;
        let ghost ps = pairs@.map_values(|p: Vec<i32>| p@);
        let mut i: usize = 0;
        while i < pairs.len()
            invariant
                g == *old(self),
                g.wf(),
                self.wf(),
                i <= pairs@.len(),
                ps == pairs@.map_values(|p: Vec<i32>| p@),
                self.spec_width() == g.spec_width(),
                self.spec_height() == g.spec_height(),
                forall|j: int| 0 <= j < i ==> #[trigger] ps[j].len() == 2,
                self.spec_cells() == apply_set_n(g.spec_cells(), g.spec_width(), g.spec_height(),
                    ps, state, i as int),
            decreases pairs@.len() - i,
        {
            if pairs[i].len() != 2 {
                proof {
                    lemma_valid_pairs_prefix(ps, i as int);
                }
                return Err(CoordinateError::InvalidCoordinate);
            }
            let col = pairs[i][0];
            let row = pairs[i][1];
            self.set_cell(col, row, state);
            i = i + 1;
        }
        proof {
            lemma_valid_pairs_prefix(ps, ps.len() as int);
        }
        Ok(())
    }

    /// Toggles every listed cell. Each pair must hold exactly two
    /// coordinates; the first malformed pair aborts the batch with
    /// `InvalidCoordinate`, leaving the already-applied prefix in place.
    pub fn toggle_cells(&mut self, pairs: &Vec<Vec<i32>>) -> (r: Result<(), CoordinateError>)
        requires
            old(self).wf(),
        ensures
            final(self).wf(),
            final(self).spec_width() == old(self).spec_width(),
            final(self).spec_height() == old(self).spec_height(),
            final(self).spec_cells() == apply_toggle_n(old(self).spec_cells(),
                old(self).spec_width(), old(self).spec_height(),
                pairs@.map_values(|p: Vec<i32>| p@),
                valid_pairs_prefix(pairs@.map_values(|p: Vec<i32>| p@))),
            r is Ok <==> valid_pairs_prefix(pairs@.map_values(|p: Vec<i32>| p@)) == pairs@.len(),
            r is Err ==> r == Result::<(), CoordinateError>::Err(
                CoordinateError::InvalidCoordinate),
    {
        let ghost g = *self;
        let ghost ps = pairs@.map_values(|p: Vec<i32>| p@);
        let mut i: usize = 0;
        while i < pairs.len()
            invariant
                g == *old(self),
                g.wf(),
                self.wf(),
                i <= pairs@.len(),
                ps == pairs@.map_values(|p: Vec<i32>| p@),
                self.spec_width() == g.spec_width(),
                self.spec_height() == g.spec_height(),
                forall|j: int| 0 <= j < i ==> #[trigger] ps[j].len() == 2,
                self.spec_cells() == apply_toggle_n(g.spec_cells(), g.spec_width(),
                    g.spec_height(), ps, i as int),
            decreases pairs@.len() - i,
        {
            if pairs[i].len() != 2 {
                proof {
                    lemma_valid_pairs_prefix(ps, i as int);
                }
                return Err(CoordinateError::InvalidCoordinate);
            }
            let col = pairs[i][0];
            let row = pairs[i][1];
            self.toggle_cell(col, row);
            i = i + 1;
        }
        proof {
            lemma_valid_pairs_prefix(ps, ps.len() as int);
        }
        Ok(())
    }
}

/// Law: writing a cell and reading back the same (arbitrarily out-of-range)
/// coordinates yields the state just written.
pub proof fn lemma_set_then_get(cells: Seq<Cell>, w: int, h: int, x: int, y: int, s: Cell)
    requires
        1 <= w,
        1 <= h,
        cells.len() == w * h,
    ensures
        cell_at(set_cell_seq(cells, w, h, x, y, s), w, h, x, y) == s,
{
    lemma_wrap_bound(x, w);
    lemma_wrap_bound(y, h);
    lemma_rowmajor_in_range(wrap(x, w), wrap(y, h), w, h);
}

/// Law: the grid is periodic in both axes; reading one full period away
/// yields the same cell.
pub proof fn lemma_cell_periodic(g: Universe, x: int, y: int)
    requires
        g.wf(),
    ensures
        g.spec_cell(x + g.spec_width(), y) == g.spec_cell(x, y),
        g.spec_cell(x, y + g.spec_height()) == g.spec_cell(x, y),
{
    lemma_wrap_period(x, g.spec_width());
    lemma_wrap_period(y, g.spec_height());
}

/// Any wrapped read stays inside the buffer and equals the direct read of
/// the wrapped index.
pub proof fn lemma_cell_index(g: Universe, x: int, y: int)
    requires
        g.wf(),
    ensures
        0 <= rowmajor(wrap(x, g.spec_width()), wrap(y, g.spec_height()), g.spec_width())
            < g.spec_cells().len(),
        g.spec_cell(x, y) == g.spec_cells()[rowmajor(wrap(x, g.spec_width()),
            wrap(y, g.spec_height()), g.spec_width())],
{
    lemma_wrap_bound(x, g.spec_width());
    lemma_wrap_bound(y, g.spec_height());
    lemma_rowmajor_in_range(wrap(x, g.spec_width()), wrap(y, g.spec_height()), g.spec_width(),
        g.spec_height());
}

/// The neighbour count is invariant under wrapping the centre coordinates.
proof fn lemma_neighbour_count_wrap(g: Universe, x: int, y: int)
    requires
        g.wf(),
    ensures
        g.spec_neighbour_count(wrap(x, g.spec_width()), wrap(y, g.spec_height()))
            == g.spec_neighbour_count(x, y),
{
    let w = g.spec_width();
    let h = g.spec_height();
    lemma_wrap_add(x, -1, w);
    lemma_wrap_add(x, 0, w);
    lemma_wrap_add(x, 1, w);
    lemma_wrap_add(y, -1, h);
    lemma_wrap_add(y, 0, h);
    lemma_wrap_add(y, 1, h);
}

/// Law: one generation step of an all-dead grid is an all-dead grid.
pub proof fn lemma_tick_all_dead(g: Universe)
    requires
        g.wf(),
        forall|i: int| 0 <= i < g.spec_cells().len() ==> g.spec_cells()[i] == Cell::Dead,
    ensures
        g.spec_tick().len() == g.spec_cells().len(),
        forall|i: int| 0 <= i < g.spec_tick().len() ==> g.spec_tick()[i] == Cell::Dead,
{
    assert forall|i: int| 0 <= i < g.spec_tick().len() implies g.spec_tick()[i]
        == Cell::Dead by {
        let x = i % g.spec_width();
        let y = i / g.spec_width();
        lemma_cell_index(g, x - 1, y - 1);
        lemma_cell_index(g, x, y - 1);
        lemma_cell_index(g, x + 1, y - 1);
        lemma_cell_index(g, x - 1, y);
        lemma_cell_index(g, x + 1, y);
        lemma_cell_index(g, x - 1, y + 1);
        lemma_cell_index(g, x, y + 1);
        lemma_cell_index(g, x + 1, y + 1);
    }
}

/// Law: an alive cell all 8 of whose Moore neighbours are dead is dead
/// after one generation step.
pub proof fn lemma_isolated_cell_dies(g: Universe, x: int, y: int)
    requires
        g.wf(),
        g.spec_cell(x, y) is Alive,
        g.spec_cell(x - 1, y - 1) is Dead,
        g.spec_cell(x, y - 1) is Dead,
        g.spec_cell(x + 1, y - 1) is Dead,
        g.spec_cell(x - 1, y) is Dead,
        g.spec_cell(x + 1, y) is Dead,
        g.spec_cell(x - 1, y + 1) is Dead,
        g.spec_cell(x, y + 1) is Dead,
        g.spec_cell(x + 1, y + 1) is Dead,
    ensures
        cell_at(g.spec_tick(), g.spec_width(), g.spec_height(), x, y) is Dead,
{
    let w = g.spec_width();
    let h = g.spec_height();
    let wx = wrap(x, w);
    let wy = wrap(y, h);
    lemma_cell_index(g, x, y);
    let idx = rowmajor(wx, wy, w);
    lemma_wrap_bound(x, w);
    lemma_wrap_bound(y, h);
    lemma_rowmajor_inverse(wx, wy, w);
    lemma_neighbour_count_wrap(g, x, y);
    assert(g.spec_neighbour_count(x, y) == 0);
    assert(g.spec_tick()[idx] == next_cell(g.spec_cells()[idx],
        g.spec_neighbour_count(wx, wy)));
}

} // verus!
