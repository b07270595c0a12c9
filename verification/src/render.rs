//! The board as text: one line for each row, two characters for each cell.

use vstd::prelude::*;
use vstd::string::StringExecFns;
use crate::board::Board;
use crate::puzzle::Search;

verus! {

/// The two characters of a cell: full blocks if it is lit, light shade if it
/// is off.
pub open spec fn cell_text(lit: bool) -> Seq<char> {
    if lit {
        seq!['\u{2588}', '\u{2588}']
    } else {
        seq!['\u{2591}', '\u{2591}']
    }
}

/// The characters of a row: those of its cells, from the first column on.
pub open spec fn row_text(row: Seq<bool>) -> Seq<char>
    decreases row.len(),
{
    if row.len() == 0 {
        Seq::empty()
    } else {
        row_text(row.drop_last()) + cell_text(row.last())
    }
}

/// The text of a grid: the characters of each row, and a line feed after
/// them, from the first row on.
pub open spec fn grid_text(rows: Seq<Seq<bool>>) -> Seq<char>
    decreases rows.len(),
{
    if rows.len() == 0 {
        Seq::empty()
    } else {
        grid_text(rows.drop_last()) + row_text(rows.last()) + seq!['\n']
    }
}

impl Board {
    /// The board as text.
    pub fn render(&self) -> (text: String)
        requires
            self.inv(),
        ensures
            text@ == grid_text(self@.cells),
    {
        let mut text = String::new();
        let ghost rows = self@.cells;
        let width = self.width();
        let height = self.height();
        proof {
            self.lemma_valid();
            reveal_strlit("\u{2588}\u{2588}");
            reveal_strlit("\u{2591}\u{2591}");
            reveal_strlit("\n");
        }
        let mut y: usize = 0;
        while y < height
            invariant
                y <= height,
                self.inv(),
                rows == self@.cells,
                width == self@.width,
                height == self@.height,
                self@.well_formed(),
                text@ == grid_text(rows.take(y as int)),
                "\u{2588}\u{2588}"@ == cell_text(true),
                "\u{2591}\u{2591}"@ == cell_text(false),
                "\n"@ == seq!['\n'],
            decreases height - y,
        {
            let ghost row = rows[y as int];
            let ghost above = text@;
            let mut x: usize = 0;
            assert(row.take(0) =~= Seq::empty());
            while x < width
                invariant
                    x <= width,
                    y < height,
                    self.inv(),
                    rows == self@.cells,
                    row == rows[y as int],
                    row.len() == width,
                    width == self@.width,
                    height == self@.height,
                    text@ == above + row_text(row.take(x as int)),
                    "\u{2588}\u{2588}"@ == cell_text(true),
                    "\u{2591}\u{2591}"@ == cell_text(false),
                decreases width - x,
            {
                proof {
                    assert(row.take(x + 1).drop_last() =~= row.take(x as int));
                    assert(row.take(x + 1).last() == row[x as int]);
                }
                if self.get(x, y) {
                    text.append("\u{2588}\u{2588}");
                } else {
                    text.append("\u{2591}\u{2591}");
                }
                assert(text@ =~= above + row_text(row.take(x + 1)));
                x += 1;
            }
            text.append("\n");
            proof {
                assert(row.take(width as int) =~= row);
                assert(rows.take(y + 1).drop_last() =~= rows.take(y as int));
                assert(rows.take(y + 1).last() == row);
            }
            y += 1;
        }
        assert(rows.take(height as int) =~= rows);
        text
    }
}

} // verus!
