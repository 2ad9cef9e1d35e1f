//! Plain-text rendering of a grid: one glyph per cell, one line per row.

use vstd::prelude::*;
use vstd::string::StringExecFns;
use crate::coords::{rowmajor, lemma_wrap_small};
use crate::grid::{Cell, Universe};

verus! {

/// The glyph a cell is drawn as.
pub open spec fn render_char(c: Cell) -> char {
    match c {
        Cell::Alive => '◼',
        Cell::Dead => '◻',
    }
}

/// The glyphs of one full row.
pub open spec fn row_glyphs(g: Universe, y: int) -> Seq<char> {
    Seq::new(g.spec_width() as nat,
        |x: int| render_char(g.spec_cells()[rowmajor(x, y, g.spec_width())]))
}

/// The rendered text of the first `y` rows, each terminated by a newline.
pub open spec fn render_upto(g: Universe, y: int) -> Seq<char>
    decreases y,
{
    if y <= 0 {
        Seq::empty()
    } else {
        render_upto(g, y - 1) + row_glyphs(g, y - 1) + seq!['\n']
    }
}

/// The rendered text of the whole grid.
pub open spec fn render_text(g: Universe) -> Seq<char> {
    render_upto(g, g.spec_height())
}

impl Universe {
    /// Renders the grid as text, row by row: a filled square for an alive
    /// cell, an open square for a dead one, a newline after every row.
    pub fn render_to_string(&self) -> (r: String)
        requires
            self.wf(),
        ensures
            r@ == render_text(*self),
    {
        let mut s = String::new();
        let mut y: i32 = 0;
        while y < self.height
            invariant
                self.wf(),
                0 <= y <= self.spec_height(),
                s@ == render_upto(*self, y as int),
            decreases self.spec_height() - y,
        {
            let ghost prefix = s@;
            let mut x: i32 = 0;
            while x < self.width
                invariant
                    self.wf(),
                    0 <= y < self.spec_height(),
                    0 <= x <= self.spec_width(),
                    prefix == render_upto(*self, y as int),
                    s@ == prefix + row_glyphs(*self, y as int).take(x as int),
                decreases self.spec_width() - x,
            {
                let idx = self.get_index(x, y);
                proof {
                    lemma_wrap_small(x as int, self.spec_width());
                    lemma_wrap_small(y as int, self.spec_height());
                }
                match self.cells[idx] {
                    Cell::Alive => s.append("◼"),
                    Cell::Dead => s.append("◻"),
                }
                proof {
                    reveal_strlit("◼");
                    reveal_strlit("◻");
                    assert(s@ =~= prefix + row_glyphs(*self, y as int).take(x as int + 1));
                }
                x = x + 1;
            }
            s.append("\n");
            proof {
                reveal_strlit("\n");
                assert(row_glyphs(*self, y as int).take(self.spec_width() as int)
                    =~= row_glyphs(*self, y as int));
                assert(s@ =~= render_upto(*self, y as int + 1));
            }
            y = y + 1;
        }
        s
    }
}

} // verus!
