//! The board of the puzzle as a grid of cells, and the rules of the puzzle on
//! it: the toggle, the score, and the moves.

use vstd::prelude::*;

verus! {

/// A grid of `width` columns and `height` rows of cells. `cells[y][x]` says
/// whether the cell in column `x` of row `y` is lit.
pub struct Grid {
    pub width: nat,
    pub height: nat,
    pub cells: Seq<Seq<bool>>,
}

/// The number of cells of `row` that are off.
pub open spec fn off_count(row: Seq<bool>) -> nat
    decreases row.len(),
{
    if row.len() == 0 {
        0
    } else {
        off_count(row.drop_last()) + if row.last() {
            0nat
        } else {
            1nat
        }
    }
}

/// The number of cells of `rows` that are off.
pub open spec fn off_total(rows: Seq<Seq<bool>>) -> nat
    decreases rows.len(),
{
    if rows.len() == 0 {
        0
    } else {
        off_total(rows.drop_last()) + off_count(rows.last())
    }
}

/// Whether the toggle at `(cx, cy)` flips the cell `(x, y)`: the cell itself,
/// and its neighbours to the left, to the right, above and below.
pub open spec fn in_plus(cx: int, cy: int, x: int, y: int) -> bool {
    ||| x == cx && (y == cy - 1 || y == cy || y == cy + 1)
    ||| y == cy && (x == cx - 1 || x == cx + 1)
}

impl Grid {
    /// There are `height` rows of `width` cells each.
    pub open spec fn well_formed(self) -> bool {
        &&& self.cells.len() == self.height
        &&& forall|y: int| 0 <= y < self.height ==> (#[trigger] self.cells[y]).len() == self.width
    }

    /// The grid is well formed, a row fits into 64 bits, and the number of
    /// cells fits into a `usize`.
    pub open spec fn valid(self) -> bool {
        &&& self.well_formed()
        &&& self.width <= 64
        &&& self.width * self.height <= usize::MAX
    }

    /// The grid with every cell off.
    pub open spec fn dark(width: nat, height: nat) -> Grid {
        Grid { width, height, cells: Seq::new(height, |y: int| Seq::new(width, |x: int| false)) }
    }

    /// The grid with the cell `(x, y)` set to `value`.
    pub open spec fn with_cell(self, x: int, y: int, value: bool) -> Grid {
        Grid {
            width: self.width,
            height: self.height,
            cells: self.cells.update(y, self.cells[y].update(x, value)),
        }
    }

    /// The grid after the toggle at `(cx, cy)`: the cells of the plus around
    /// `(cx, cy)` that lie on the grid are flipped, the others stay.
    pub open spec fn toggled(self, cx: int, cy: int) -> Grid {
        Grid {
            width: self.width,
            height: self.height,
            cells: Seq::new(
                self.height,
                |y: int| Seq::new(self.width, |x: int| self.cells[y][x] != in_plus(cx, cy, x, y)),
            ),
        }
    }

    /// The cells of the grid that the toggle at `(cx, cy)` flips, each as its
    /// column and its row.
    pub open spec fn plus_cells(self, cx: int, cy: int) -> Set<(int, int)> {
        Set::new(
            |c: (int, int)|
                0 <= c.0 < self.width && 0 <= c.1 < self.height && in_plus(cx, cy, c.0, c.1),
        )
    }

    /// The score: the number of cells that are off.
    pub open spec fn off_cells(self) -> nat {
        off_total(self.cells)
    }

    /// Every cell is off.
    pub open spec fn all_off(self) -> bool {
        forall|x: int, y: int| 0 <= x < self.width && 0 <= y < self.height ==> !self.cells[y][x]
    }

    /// The number of cells that a toggle at `(x, y)` is expected to flip: 3,
    /// one more if the column has a neighbour on both sides, and one more if
    /// the row has a neighbour on both sides.
    pub open spec fn expected_flips(self, x: int, y: int) -> nat {
        3 + if 0 < x < self.width - 1 {
            1nat
        } else {
            0nat
        } + if 0 < y < self.height - 1 {
            1nat
        } else {
            0nat
        }
    }

    /// Whether the toggle at `(x, y)` is a move: whether the score after it is
    /// the score before it and the number of cells that it is expected to
    /// flip. A toggle that changes the score by any other amount is none.
    pub open spec fn accepts(self, x: int, y: int) -> bool {
        self.toggled(x, y).off_cells() == self.off_cells() + self.expected_flips(x, y)
    }

    /// The number of cells of the plus around `(cx, cy)` that are lit.
    pub open spec fn lit_in_plus(self, cx: int, cy: int) -> nat {
        self.lit_at(cx, cy) + self.lit_at(cx - 1, cy) + self.lit_at(cx + 1, cy) + self.lit_at(
            cx,
            cy - 1,
        ) + self.lit_at(cx, cy + 1)
    }

    /// 1 if `(x, y)` is a lit cell of the grid, 0 if it is off or no cell of
    /// the grid.
    pub open spec fn lit_at(self, x: int, y: int) -> nat {
        if 0 <= x < self.width && 0 <= y < self.height && self.cells[y][x] {
            1
        } else {
            0
        }
    }

    /// The identifier of the move at `(x, y)`.
    pub open spec fn move_id(self, x: int, y: int) -> int {
        x * self.width + y
    }

    /// The moves among the toggles at the first `n` cells of column `x`,
    /// from the top down.
    pub open spec fn moves_in_column(self, x: int, n: nat) -> Seq<(Grid, usize)>
        decreases n,
    {
        if n == 0 {
            Seq::empty()
        } else {
            let above = self.moves_in_column(x, (n - 1) as nat);
            if self.accepts(x, n - 1) {
                above.push((self.toggled(x, n - 1), self.move_id(x, n - 1) as usize))
            } else {
                above
            }
        }
    }

    /// The moves among the toggles in the first `n` columns, column by
    /// column.
    pub open spec fn moves_in_columns(self, n: nat) -> Seq<(Grid, usize)>
        decreases n,
    {
        if n == 0 {
            Seq::empty()
        } else {
            self.moves_in_columns((n - 1) as nat) + self.moves_in_column(n - 1, self.height)
        }
    }

    /// The moves, each with its identifier: the toggles that are accepted,
    /// column by column, and within a column from the top down.
    pub open spec fn moves(self) -> Seq<(Grid, usize)> {
        self.moves_in_columns(self.width)
    }

    /// `step` is the move at the cell `(x, y)` of the grid.
    pub open spec fn is_move_at(self, step: (Grid, usize), x: int, y: int) -> bool {
        &&& 0 <= x < self.width
        &&& 0 <= y < self.height
        &&& self.accepts(x, y)
        &&& step == (self.toggled(x, y), self.move_id(x, y) as usize)
    }
}

/// No more cells of a row are off than the row has.
pub proof fn lemma_off_count_bound(row: Seq<bool>)
    ensures
        off_count(row) <= row.len(),
        off_count(row) == row.len() <==> forall|x: int| 0 <= x < row.len() ==> !row[x],
    decreases row.len(),
{
    if row.len() > 0 {
        lemma_off_count_bound(row.drop_last());
        if off_count(row) == row.len() {
            assert forall|x: int| 0 <= x < row.len() implies !row[x] by {
                if x < row.len() - 1 {
                    assert(row[x] == row.drop_last()[x]);
                }
            }
        }
        if forall|x: int| 0 <= x < row.len() ==> !row[x] {
            assert forall|x: int| 0 <= x < row.drop_last().len() implies !row.drop_last()[x] by {
                assert(row[x] == row.drop_last()[x]);
            }
        }
    }
}

/// No more cells of the first `n` rows are off than the rows have, and all of
/// them are off if and only if the count says so.
proof fn lemma_off_total_bound(rows: Seq<Seq<bool>>, width: nat)
    requires
        forall|y: int| 0 <= y < rows.len() ==> (#[trigger] rows[y]).len() == width,
    ensures
        off_total(rows) <= width * rows.len(),
        off_total(rows) == width * rows.len() <==> forall|x: int, y: int|
            0 <= x < width && 0 <= y < rows.len() ==> !rows[y][x],
    decreases rows.len(),
{
    if rows.len() > 0 {
        let upper = rows.drop_last();
        let n = upper.len();
        assert forall|y: int| 0 <= y < upper.len() implies (#[trigger] upper[y]).len() == width by {
            assert(upper[y] == rows[y]);
        }
        lemma_off_total_bound(upper, width);
        lemma_off_count_bound(rows.last());
        assert(width * rows.len() == width * n + width) by (nonlinear_arith)
            requires
                rows.len() == n + 1,
        ;
        if off_total(rows) == width * rows.len() {
            assert forall|x: int, y: int| 0 <= x < width && 0 <= y < rows.len() implies !rows[y][x] by {
                if y < n {
                    assert(upper[y] == rows[y]);
                }
            }
        }
        if forall|x: int, y: int| 0 <= x < width && 0 <= y < rows.len() ==> !rows[y][x] {
            assert forall|x: int, y: int| 0 <= x < width && 0 <= y < upper.len() implies !upper[y][x] by {
                assert(upper[y] == rows[y]);
            }
            assert forall|x: int| 0 <= x < rows.last().len() implies !rows.last()[x] by {
                assert(!rows[n as int][x]);
            }
        }
    } else {
        assert(width * rows.len() == 0) by (nonlinear_arith)
            requires
                rows.len() == 0,
        ;
    }
}

/// The score of a grid lies between 0 and the number of its cells.
pub proof fn lemma_score_bound(g: Grid)
    requires
        g.well_formed(),
    ensures
        0 <= g.off_cells() <= g.width * g.height,
{
    lemma_off_total_bound(g.cells, g.width);
}

/// Every cell of a grid is off if and only if its score is the number of its
/// cells.
pub proof fn lemma_all_off_iff_full_score(g: Grid)
    requires
        g.well_formed(),
    ensures
        g.all_off() <==> g.off_cells() == g.width * g.height,
{
    lemma_off_total_bound(g.cells, g.width);
}

/// A toggle keeps the shape of the grid.
pub proof fn lemma_toggled_shape(g: Grid, cx: int, cy: int)
    ensures
        g.toggled(cx, cy).width == g.width,
        g.toggled(cx, cy).height == g.height,
        g.toggled(cx, cy).well_formed(),
        g.valid() ==> g.toggled(cx, cy).valid(),
{
}

/// A toggle flips the cells of its plus and no other cell.
pub proof fn lemma_toggle_flips_plus(g: Grid, cx: int, cy: int, x: int, y: int)
    requires
        0 <= x < g.width,
        0 <= y < g.height,
    ensures
        g.toggled(cx, cy).cells[y][x] == (g.cells[y][x] != g.plus_cells(cx, cy).contains((x, y))),
{
}

/// A toggle flips its own cell and each of the four neighbours that the grid
/// has: five cells in the interior, four on an edge, three in a corner of a
/// grid with at least two columns and two rows.
pub proof fn lemma_plus_size(g: Grid, cx: int, cy: int)
    requires
        0 <= cx < g.width,
        0 <= cy < g.height,
    ensures
        g.plus_cells(cx, cy).finite(),
        g.plus_cells(cx, cy).len() == 1 + (if cx > 0 {
            1nat
        } else {
            0nat
        }) + (if cx < g.width - 1 {
            1nat
        } else {
            0nat
        }) + (if cy > 0 {
            1nat
        } else {
            0nat
        }) + (if cy < g.height - 1 {
            1nat
        } else {
            0nat
        }),
{
    let own = set![(cx, cy)];
    let left = if cx > 0 {
        own.insert((cx - 1, cy))
    } else {
        own
    };
    let right = if cx < g.width - 1 {
        left.insert((cx + 1, cy))
    } else {
        left
    };
    let above = if cy > 0 {
        right.insert((cx, cy - 1))
    } else {
        right
    };
    let below = if cy < g.height - 1 {
        above.insert((cx, cy + 1))
    } else {
        above
    };
    assert(g.plus_cells(cx, cy) =~= below);
}

/// On a grid with at least two columns and two rows a toggle flips as many
/// cells as it is expected to flip.
pub proof fn lemma_expected_is_plus_size(g: Grid, cx: int, cy: int)
    requires
        g.width >= 2,
        g.height >= 2,
        0 <= cx < g.width,
        0 <= cy < g.height,
    ensures
        g.expected_flips(cx, cy) == g.plus_cells(cx, cy).len(),
{
    lemma_plus_size(g, cx, cy);
}

/// The same toggle applied twice gives the grid back.
pub proof fn lemma_toggle_twice(g: Grid, cx: int, cy: int)
    requires
        g.well_formed(),
    ensures
        g.toggled(cx, cy).toggled(cx, cy) == g,
{
    assert(g.toggled(cx, cy).toggled(cx, cy).cells =~~= g.cells);
}

/// A toggle at a cell of the grid changes the grid.
pub proof fn lemma_toggle_changes(g: Grid, cx: int, cy: int)
    requires
        0 <= cx < g.width,
        0 <= cy < g.height,
    ensures
        g.toggled(cx, cy) != g,
{
    let t = g.toggled(cx, cy);
    assert(t.cells[cy][cx] == !g.cells[cy][cx]);
}

/// A flip of one cell of a row raises the number of its cells that are off by
/// one if the cell was lit, and lowers it by one if the cell was off.
proof fn lemma_flip_in_row(row: Seq<bool>, x: int)
    requires
        0 <= x < row.len(),
    ensures
        off_count(row.update(x, !row[x])) == off_count(row) + if row[x] {
            1int
        } else {
            -1int
        },
    decreases row.len(),
{
    let flipped = row.update(x, !row[x]);
    if x == row.len() - 1 {
        assert(flipped.drop_last() =~= row.drop_last());
    } else {
        lemma_flip_in_row(row.drop_last(), x);
        assert(flipped.drop_last() =~= row.drop_last().update(x, !row[x]));
    }
}

/// A new row in place of an old one changes the number of cells that are off
/// by the difference between the two rows.
proof fn lemma_replace_row(rows: Seq<Seq<bool>>, y: int, row: Seq<bool>)
    requires
        0 <= y < rows.len(),
    ensures
        off_total(rows.update(y, row)) == off_total(rows) - off_count(rows[y]) + off_count(row),
    decreases rows.len(),
{
    let replaced = rows.update(y, row);
    if y == rows.len() - 1 {
        assert(replaced.drop_last() =~= rows.drop_last());
    } else {
        lemma_replace_row(rows.drop_last(), y, row);
        assert(replaced.drop_last() =~= rows.drop_last().update(y, row));
    }
}

/// The row with the cell `x` flipped, if the row has that cell and `on` says
/// so.
spec fn flip_if(row: Seq<bool>, x: int, on: bool) -> Seq<bool> {
    if on && 0 <= x < row.len() {
        row.update(x, !row[x])
    } else {
        row
    }
}

/// What a flip as in `flip_if` adds to the number of cells that are off.
spec fn gain_if(row: Seq<bool>, x: int, on: bool) -> int {
    if on && 0 <= x < row.len() {
        if row[x] {
            1
        } else {
            -1
        }
    } else {
        0
    }
}

proof fn lemma_flip_if(row: Seq<bool>, x: int, on: bool)
    ensures
        off_count(flip_if(row, x, on)) == off_count(row) + gain_if(row, x, on),
{
    if on && 0 <= x < row.len() {
        lemma_flip_in_row(row, x);
    }
}

/// A toggle raises the score by the number of lit cells of its plus, and
/// lowers it by the number of the others.
pub proof fn lemma_toggle_gain(g: Grid, cx: int, cy: int)
    requires
        g.well_formed(),
        0 <= cx < g.width,
        0 <= cy < g.height,
    ensures
        g.plus_cells(cx, cy).finite(),
        g.lit_in_plus(cx, cy) <= g.plus_cells(cx, cy).len(),
        g.toggled(cx, cy).off_cells() == g.off_cells() + 2 * g.lit_in_plus(cx, cy)
            - g.plus_cells(cx, cy).len(),
{
    lemma_plus_size(g, cx, cy);
    let t = g.toggled(cx, cy);
    let above = flip_if(g.cells[cy - 1], cx, cy > 0);
    let own = g.cells[cy];
    let left = flip_if(own, cx - 1, true);
    let both = flip_if(left, cx, true);
    let middle = flip_if(both, cx + 1, true);
    let below = flip_if(g.cells[cy + 1], cx, cy < g.height - 1);
    let first = if cy > 0 {
        g.cells.update(cy - 1, above)
    } else {
        g.cells
    };
    let second = first.update(cy, middle);
    let third = if cy < g.height - 1 {
        second.update(cy + 1, below)
    } else {
        second
    };
    assert(t.cells =~~= third);
    lemma_flip_if(g.cells[cy - 1], cx, cy > 0);
    lemma_flip_if(own, cx - 1, true);
    lemma_flip_if(left, cx, true);
    lemma_flip_if(both, cx + 1, true);
    lemma_flip_if(g.cells[cy + 1], cx, cy < g.height - 1);
    if cy > 0 {
        lemma_replace_row(g.cells, cy - 1, above);
    }
    lemma_replace_row(first, cy, middle);
    if cy < g.height - 1 {
        lemma_replace_row(second, cy + 1, below);
    }
}

/// A toggle is accepted if and only if its plus has as many cells as it is
/// expected to flip and all of them are lit: a move turns a lit plus off. So
/// a grid with fewer than two columns or fewer than two rows has no moves, and
/// no move takes the score down.
pub proof fn lemma_accepts_lit_plus(g: Grid, cx: int, cy: int)
    requires
        g.well_formed(),
        0 <= cx < g.width,
        0 <= cy < g.height,
    ensures
        g.accepts(cx, cy) <==> g.plus_cells(cx, cy).len() == g.expected_flips(cx, cy)
            && g.lit_in_plus(cx, cy) == g.plus_cells(cx, cy).len(),
        g.accepts(cx, cy) ==> g.width >= 2 && g.height >= 2,
{
    lemma_toggle_gain(g, cx, cy);
    lemma_plus_size(g, cx, cy);
}

/// The identifier of a move fits into a `usize`.
pub proof fn lemma_move_id_fits(g: Grid, x: int, y: int)
    requires
        g.valid(),
        0 <= x < g.width,
        0 <= y < g.height,
    ensures
        0 <= g.move_id(x, y) <= usize::MAX,
        g.move_id(x, y) as usize == g.move_id(x, y),
{
    let w = g.width as int;
    let h = g.height as int;
    assert(0 <= x * w <= 63 * 64) by (nonlinear_arith)
        requires
            0 <= x < w,
            w <= 64,
    ;
    if x > 0 {
        assert(2 * h <= w * h) by (nonlinear_arith)
            requires
                2 <= w,
                0 <= h,
        ;
        assert(usize::MAX >= 0xffff_ffff);
    } else {
        assert(h <= w * h) by (nonlinear_arith)
            requires
                1 <= w,
                0 <= h,
        ;
    }
}

proof fn lemma_column_member(g: Grid, x: int, n: nat, i: int) -> (y: int)
    requires
        0 <= x < g.width,
        n <= g.height,
        0 <= i < g.moves_in_column(x, n).len(),
    ensures
        g.is_move_at(g.moves_in_column(x, n)[i], x, y),
        y < n,
    decreases n,
{
    let above = g.moves_in_column(x, (n - 1) as nat);
    if i < above.len() {
        lemma_column_member(g, x, (n - 1) as nat, i)
    } else {
        n - 1
    }
}

proof fn lemma_columns_member(g: Grid, n: nat, i: int) -> (origin: (int, int))
    requires
        n <= g.width,
        0 <= i < g.moves_in_columns(n).len(),
    ensures
        g.is_move_at(g.moves_in_columns(n)[i], origin.0, origin.1),
        origin.0 < n,
    decreases n,
{
    let before = g.moves_in_columns((n - 1) as nat);
    if i < before.len() {
        lemma_columns_member(g, (n - 1) as nat, i)
    } else {
        let y = lemma_column_member(g, n - 1, g.height, i - before.len());
        (n - 1, y)
    }
}

/// Every move is an accepted toggle at a cell of the grid, with the
/// identifier of that cell.
pub proof fn lemma_moves_are_toggles(g: Grid, i: int) -> (origin: (int, int))
    requires
        0 <= i < g.moves().len(),
    ensures
        g.is_move_at(g.moves()[i], origin.0, origin.1),
{
    lemma_columns_member(g, g.width, i)
}

proof fn lemma_column_holds(g: Grid, x: int, n: nat, y: int) -> (i: int)
    requires
        0 <= y < n,
        g.accepts(x, y),
    ensures
        0 <= i < g.moves_in_column(x, n).len(),
        g.moves_in_column(x, n)[i] == (g.toggled(x, y), g.move_id(x, y) as usize),
    decreases n,
{
    let above = g.moves_in_column(x, (n - 1) as nat);
    if y == n - 1 {
        above.len() as int
    } else {
        lemma_column_holds(g, x, (n - 1) as nat, y)
    }
}

proof fn lemma_columns_hold(g: Grid, n: nat, x: int, y: int) -> (i: int)
    requires
        0 <= x < n,
        0 <= y < g.height,
        g.accepts(x, y),
    ensures
        0 <= i < g.moves_in_columns(n).len(),
        g.moves_in_columns(n)[i] == (g.toggled(x, y), g.move_id(x, y) as usize),
    decreases n,
{
    let before = g.moves_in_columns((n - 1) as nat);
    if x == n - 1 {
        let i = lemma_column_holds(g, x, g.height, y);
        before.len() + i
    } else {
        lemma_columns_hold(g, (n - 1) as nat, x, y)
    }
}

/// Every accepted toggle at a cell of the grid is a move.
pub proof fn lemma_accepted_toggle_is_move(g: Grid, x: int, y: int) -> (i: int)
    requires
        0 <= x < g.width,
        0 <= y < g.height,
        g.accepts(x, y),
    ensures
        0 <= i < g.moves().len(),
        g.moves()[i] == (g.toggled(x, y), g.move_id(x, y) as usize),
{
    lemma_columns_hold(g, g.width, x, y)
}

proof fn lemma_column_len(g: Grid, x: int, n: nat)
    ensures
        g.moves_in_column(x, n).len() <= n,
    decreases n,
{
    if n > 0 {
        lemma_column_len(g, x, (n - 1) as nat);
    }
}

proof fn lemma_columns_len(g: Grid, n: nat)
    ensures
        g.moves_in_columns(n).len() <= n * g.height,
    decreases n,
{
    if n > 0 {
        lemma_columns_len(g, (n - 1) as nat);
        lemma_column_len(g, n - 1, g.height);
        assert(n * g.height == (n - 1) * g.height + g.height) by (nonlinear_arith);
    } else {
        assert(0 * g.height == 0) by (nonlinear_arith);
    }
}

/// A grid has no more moves than cells.
pub proof fn lemma_moves_len(g: Grid)
    ensures
        g.moves().len() <= g.width * g.height,
{
    lemma_columns_len(g, g.width);
}

/// A move changes the grid.
pub proof fn lemma_moves_change(g: Grid, i: int)
    requires
        0 <= i < g.moves().len(),
    ensures
        g.moves()[i].0 != g,
{
    let origin = lemma_moves_are_toggles(g, i);
    lemma_toggle_changes(g, origin.0, origin.1);
}

/// On a grid that is no higher than wide, or has one column, the cells have
/// identifiers of their own: moves that share an identifier lead to the same
/// grid.
pub proof fn lemma_moves_unambiguous(g: Grid, i: int, j: int)
    requires
        g.valid(),
        g.height <= g.width || g.width <= 1,
        0 <= i < g.moves().len(),
        0 <= j < g.moves().len(),
        g.moves()[i].1 == g.moves()[j].1,
    ensures
        g.moves()[i].0 == g.moves()[j].0,
{
    let a = lemma_moves_are_toggles(g, i);
    let b = lemma_moves_are_toggles(g, j);
    lemma_move_id_fits(g, a.0, a.1);
    lemma_move_id_fits(g, b.0, b.1);
    let w = g.width as int;
    assert(a.0 == b.0) by (nonlinear_arith)
        requires
            a.0 * w + a.1 == b.0 * w + b.1,
            0 <= a.0 < w,
            0 <= b.0 < w,
            0 <= a.1,
            0 <= b.1,
            (a.1 < w && b.1 < w) || w <= 1,
    ;
}

} // verus!
