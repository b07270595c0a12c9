//! The board of the puzzle: a grid of cells, one `u64` for each row.

use vstd::prelude::*;
use vstd::std_specs::cmp::PartialEqSpecImpl;
use crate::bits::bit;
use crate::bits::cell_mask;
use crate::bits::cells_of;
use crate::bits::clear_cells;
use crate::bits::fits;
use crate::bits::lemma_or;
use crate::bits::lemma_same_cells_same_row;
use crate::bits::lemma_xor;
use crate::bits::lemma_zero;
use crate::bits::low_cells;
use crate::bits::plus_mask;
use crate::bits::row_fits;
use crate::bits::test_bit;
use crate::grid::Grid;
use crate::grid::in_plus;
use crate::grid::lemma_all_off_iff_full_score;
use crate::grid::lemma_move_id_fits;
use crate::grid::lemma_moves_are_toggles;
use crate::grid::lemma_moves_change;
use crate::grid::lemma_moves_len;
use crate::grid::lemma_moves_unambiguous;
use crate::grid::lemma_toggled_shape;
use crate::grid::off_count;
use crate::grid::off_total;
use crate::machine::halts;
use crate::machine::lemma_solution_replays;
use crate::machine::solution;
use crate::measure::lemma_search_halts;
use crate::puzzle::Search;
use crate::random::next_word;
use crate::random::seeded_generator;
use crate::random::seeded_grid;
use crate::random::seeded_word;
use crate::random::upcoming_word;
use crate::replay::follows;
use crate::replay::is_move;
use crate::replay::last_or;
use crate::replay::reaches;
use crate::replay::replay_end;
use crate::replay::state_before;
use crate::replay::unambiguous;

verus! {

/// A board of `width` columns and `height` rows. Bit `x` of `rows[y]` says
/// whether the cell in column `x` of row `y` is lit.
#[derive(Debug, Hash)]
pub struct Board {
    width: usize,
    height: usize,
    rows: Vec<u64>,
}

impl View for Board {
    type V = Grid;

    closed spec fn view(&self) -> Grid {
        Grid {
            width: self.width as nat,
            height: self.height as nat,
            cells: Seq::new(
                self.rows@.len(),
                |y: int| cells_of(self.rows@[y], self.width as nat),
            ),
        }
    }
}

/// `out` holds the steps `steps`, each with a valid board.
spec fn lists(out: Seq<(Board, usize)>, steps: Seq<(Grid, usize)>) -> bool {
    &&& out.len() == steps.len()
    &&& forall|i: int|
        0 <= i < out.len() ==> {
            &&& (#[trigger] out[i]).0.inv()
            &&& out[i].0@ == steps[i].0
            &&& out[i].1 == steps[i].1
        }
}

/// The number of cells that are off among the first `width` of `row`.
fn off_in_row(row: u64, width: usize) -> (n: usize)
    requires
        width <= 64,
    ensures
        n == off_count(cells_of(row, width as nat)),
        n <= width,
{
    let ghost cells = cells_of(row, width as nat);
    let mut n: usize = 0;
    let mut x: usize = 0;
    while x < width
        invariant
            x <= width <= 64,
            cells == cells_of(row, width as nat),
            n == off_count(cells.take(x as int)),
            n <= x,
        decreases width - x,
    {
        proof {
            assert(cells.take(x + 1).drop_last() =~= cells.take(x as int));
            assert(cells.take(x + 1).last() == bit(row, x as int));
        }
        if !test_bit(row, x) {
            n += 1;
        }
        x += 1;
    }
    assert(cells.take(width as int) =~= cells);
    n
}

impl Board {
    /// The board with every cell off.
    pub fn new(width: usize, height: usize) -> (board: Board)
        requires
            width <= 64,
            width * height <= usize::MAX,
        ensures
            board.inv(),
            board@ == Grid::dark(width as nat, height as nat),
    {
        let mut rows: Vec<u64> = Vec::new();
        let mut y: usize = 0;
        while y < height
            invariant
                y <= height,
                rows@.len() == y,
                forall|i: int| 0 <= i < y ==> rows@[i] == 0,
            decreases height - y,
        {
            rows.push(0);
            y += 1;
        }
        let board = Board { width, height, rows };
        proof {
            lemma_zero();
            assert(board@.cells =~~= Grid::dark(width as nat, height as nat).cells);
        }
        board
    }

    /// The board of the rows `rows`, each of `width` cells. `None` if and
    /// only if a row has more than 64 cells, the number of cells does not fit
    /// into a `usize`, or a row has a lit cell beyond its width.
    pub fn from_rows(width: usize, rows: Vec<u64>) -> (made: Option<Board>)
        ensures
            made is Some <==> {
                &&& width <= 64
                &&& width * rows@.len() <= usize::MAX
                &&& forall|y: int| 0 <= y < rows@.len() ==> fits(#[trigger] rows@[y], width as int)
            },
            made matches Some(board) ==> {
                &&& board.inv()
                &&& board@.width == width
                &&& board@.height == rows@.len()
                &&& forall|y: int|
                    0 <= y < rows@.len() ==> #[trigger] board@.cells[y] == cells_of(
                        rows@[y],
                        width as nat,
                    )
            },
    {
        let height = rows.len();
        if width > 64 || width.checked_mul(height).is_none() {
            return None;
        }
        let mut y: usize = 0;
        while y < height
            invariant
                y <= height,
                height == rows@.len(),
                forall|i: int| 0 <= i < y ==> fits(#[trigger] rows@[i], width as int),
            decreases height - y,
        {
            if !row_fits(rows[y], width) {
                return None;
            }
            y += 1;
        }
        Some(Board { width, height, rows })
    }

    /// The number of columns.
    pub fn width(&self) -> (w: usize)
        ensures
            w == self@.width,
    {
        self.width
    }

    /// The number of rows.
    pub fn height(&self) -> (h: usize)
        ensures
            h == self@.height,
    {
        self.height
    }

    /// The value of row `y`: bit `x` of it is the cell in column `x`.
    pub fn row(&self, y: usize) -> (row: u64)
        requires
            self.inv(),
            y < self@.height,
        ensures
            fits(row, self@.width as int),
            cells_of(row, self@.width) == self@.cells[y as int],
    {
        self.rows[y]
    }

    /// The grid of a valid board is valid.
    pub proof fn lemma_valid(&self)
        requires
            self.inv(),
        ensures
            self@.valid(),
    {
    }

    /// Whether the cell in column `x` of row `y` is lit.
    pub fn get(&self, x: usize, y: usize) -> (lit: bool)
        requires
            self.inv(),
            x < self@.width,
            y < self@.height,
        ensures
            lit == self@.cells[y as int][x as int],
    {
        test_bit(self.rows[y], x)
    }

    /// Sets the cell in column `x` of row `y` to `value`.
    pub fn set(&mut self, x: usize, y: usize, value: bool)
        requires
            old(self).inv(),
            x < old(self)@.width,
            y < old(self)@.height,
        ensures
            final(self).inv(),
            final(self)@ == old(self)@.with_cell(x as int, y as int, value),
    {
        let row = self.rows[y];
        let m = cell_mask(x);
        let new_row = if value {
            proof {
                lemma_or(row, m, self.width as int);
            }
            row | m
        } else {
            clear_cells(row, m)
        };
        self.rows.set(y, new_row);
        proof {
            let width = self.width as nat;
            let target = old(self)@.with_cell(x as int, y as int, value);
            assert forall|i: int| 0 <= i < self@.cells.len() implies self@.cells[i]
                =~= target.cells[i] by {
                if i == y {
                    assert forall|j: int| 0 <= j < width implies cells_of(new_row, width)[j]
                        == cells_of(row, width).update(x as int, value)[j] by {
                        assert(bit(new_row, j) == if j == x {
                            value
                        } else {
                            bit(row, j)
                        });
                    }
                }
            }
            assert(self@.cells =~= target.cells);
        }
    }

    /// Stores the first cells of `word` as row `y`: as many as the board is
    /// wide.
    pub fn set_row(&mut self, y: usize, word: u64)
        requires
            old(self).inv(),
            y < old(self)@.height,
        ensures
            final(self).inv(),
            final(self)@.width == old(self)@.width,
            final(self)@.height == old(self)@.height,
            final(self)@.cells == old(self)@.cells.update(
                y as int,
                cells_of(word, old(self)@.width),
            ),
    {
        let row = low_cells(word, self.width);
        self.rows.set(y, row);
        proof {
            let width = self.width as nat;
            assert(cells_of(row, width) =~= cells_of(word, width));
            assert(self@.cells =~= old(self)@.cells.update(y as int, cells_of(word, width)));
        }
    }

    /// Fills the board from a generator made from `seed`: row `y` holds the
    /// first cells of the word of draw `y`. The same seed gives the same
    /// board.
    pub fn randomize(&mut self, seed: u64)
        requires
            old(self).inv(),
        ensures
            final(self).inv(),
            final(self)@ == seeded_grid(old(self)@.width, old(self)@.height, seed),
    {
        let mut rng = seeded_generator(seed);
        let mut y: usize = 0;
        let ghost target = seeded_grid(self@.width, self@.height, seed);
        while y < self.height
            invariant
                y <= self.height,
                self.inv(),
                self@.width == old(self)@.width,
                self@.height == old(self)@.height,
                target == seeded_grid(old(self)@.width, old(self)@.height, seed),
                forall|i: int| 0 <= i ==> #[trigger] upcoming_word(rng, i) == seeded_word(seed, y + i),
                forall|i: int| 0 <= i < y ==> #[trigger] self@.cells[i] == target.cells[i],
            decreases self.height - y,
        {
            let ghost before = rng;
            let word = next_word(&mut rng);
            assert(word == seeded_word(seed, y as int)) by {
                assert(upcoming_word(before, 0) == seeded_word(seed, y + 0));
            }
            assert forall|i: int| 0 <= i implies #[trigger] upcoming_word(rng, i) == seeded_word(
                seed,
                (y + 1) + i,
            ) by {
                assert(upcoming_word(before, i + 1) == seeded_word(seed, y + (i + 1)));
            }
            self.set_row(y, word);
            y += 1;
        }
        assert(self@.cells =~= target.cells);
    }

    /// The board after the toggle at `(x, y)`: the cell itself and its
    /// neighbours to the left, to the right, above and below are flipped, as
    /// far as the board has them.
    pub fn clone_toggle(&self, x: usize, y: usize) -> (new_board: Board)
        requires
            self.inv(),
            x < self@.width,
            y < self@.height,
        ensures
            new_board.inv(),
            new_board@ == self@.toggled(x as int, y as int),
    {
        let mut rows = self.rows.clone();
        assert(rows@ =~= self.rows@);
        let single = cell_mask(x);
        let triple = plus_mask(x, self.width);
        if y > 0 {
            let above = rows[y - 1];
            proof {
                lemma_xor(above, single, self.width as int);
            }
            rows.set(y - 1, above ^ single);
        }
        let middle = rows[y];
        proof {
            lemma_xor(middle, triple, self.width as int);
        }
        rows.set(y, middle ^ triple);
        if y + 1 < self.height {
            let below = rows[y + 1];
            proof {
                lemma_xor(below, single, self.width as int);
            }
            rows.set(y + 1, below ^ single);
        }
        let new_board = Board { width: self.width, height: self.height, rows };
        proof {
            let width = self.width as nat;
            let target = self@.toggled(x as int, y as int);
            assert forall|i: int| 0 <= i < self.height implies new_board@.cells[i]
                =~= target.cells[i] by {
                assert forall|j: int| 0 <= j < width implies bit(new_board.rows@[i], j) == (bit(
                    self.rows@[i],
                    j,
                ) != in_plus(x as int, y as int, j, i)) by {
                    if i == y - 1 || i == y + 1 {
                        assert(bit(new_board.rows@[i], j) == (bit(self.rows@[i], j) != bit(
                            single,
                            j,
                        )));
                    } else if i == y {
                        assert(bit(new_board.rows@[i], j) == (bit(self.rows@[i], j) != bit(
                            triple,
                            j,
                        )));
                    }
                }
            }
            assert(new_board@.cells =~= target.cells);
        }
        new_board
    }

    /// The shape of the board and the values of its rows.
    pub closed spec fn layout(&self) -> (nat, nat, Seq<u64>) {
        (self.width as nat, self.height as nat, self.rows@)
    }

    /// Valid boards with the same layout are boards with the same cells.
    pub proof fn lemma_layout(&self, other: &Board)
        requires
            self.inv(),
            other.inv(),
        ensures
            self.layout() == other.layout() <==> self@ == other@,
    {
        if self@ == other@ {
            assert forall|y: int| 0 <= y < self.rows@.len() implies self.rows@[y]
                == other.rows@[y] by {
                assert(self@.cells[y] == other@.cells[y]);
                lemma_same_cells_same_row(self.rows@[y], other.rows@[y], self.width as nat);
            }
            assert(self.rows@ =~= other.rows@);
        }
        if self.layout() == other.layout() {
            assert(self@.cells =~= other@.cells);
        }
    }
}

impl Clone for Board {
    fn clone(&self) -> (board: Self)
        ensures
            board@ == self@,
            self.inv() ==> board.inv(),
    {
        let rows = self.rows.clone();
        assert(rows@ =~= self.rows@);
        Board { width: self.width, height: self.height, rows }
    }
}

impl PartialEq for Board {
    fn eq(&self, other: &Self) -> (b: bool) {
        if self.width != other.width || self.height != other.height || self.rows.len()
            != other.rows.len() {
            return false;
        }
        let n = self.rows.len();
        let mut y: usize = 0;
        while y < n
            invariant
                y <= n,
                n == self.rows@.len(),
                n == other.rows@.len(),
                forall|i: int| 0 <= i < y ==> self.rows@[i] == other.rows@[i],
            decreases n - y,
        {
            if self.rows[y] != other.rows[y] {
                return false;
            }
            y += 1;
        }
        assert(self.rows@ =~= other.rows@);
        true
    }
}

impl PartialEqSpecImpl for Board {
    open spec fn obeys_eq_spec() -> bool {
        true
    }

    /// Two boards are equal if they have the same shape and the same row
    /// values.
    open spec fn eq_spec(&self, other: &Self) -> bool {
        self.layout() == other.layout()
    }
}

impl Eq for Board {

}

impl Search for Board {
    type Score = usize;

    /// A row has at most 64 cells, there is one row value for each row, the
    /// number of cells fits into a `usize`, and no row has a lit cell beyond
    /// the width.
    closed spec fn inv(&self) -> bool {
        &&& self.width <= 64
        &&& self.rows@.len() == self.height
        &&& self.width * self.height <= usize::MAX
        &&& forall|y: int| 0 <= y < self.rows@.len() ==> fits(#[trigger] self.rows@[y], self.width as int)
    }

    open spec fn score_of(v: Grid) -> int {
        v.off_cells() as int
    }

    open spec fn is_end(v: Grid) -> bool {
        v.all_off()
    }

    open spec fn successors(v: Grid) -> Seq<(Grid, usize)> {
        v.moves()
    }

    proof fn moves_change_state(v: Grid, i: int) {
        lemma_moves_change(v, i);
    }

    /// The number of cells that are off: no more than the board has cells.
    fn score(&self) -> (s: usize)
        ensures
            s == self@.off_cells(),
            s <= self@.width * self@.height,
    {
        let mut total: usize = 0;
        let mut y: usize = 0;
        let ghost cells = self@.cells;
        while y < self.height
            invariant
                y <= self.height,
                self.inv(),
                cells == self@.cells,
                total == off_total(cells.take(y as int)),
                total <= y * self.width,
            decreases self.height - y,
        {
            let n = off_in_row(self.rows[y], self.width);
            proof {
                assert(cells.take(y + 1).drop_last() =~= cells.take(y as int));
                assert(cells.take(y + 1).last() == cells_of(self.rows@[y as int], self.width as nat));
                assert((y + 1) * self.width == y * self.width + self.width) by (nonlinear_arith);
                assert((y + 1) * self.width <= self.height * self.width) by (nonlinear_arith)
                    requires
                        y + 1 <= self.height,
                ;
                assert(self.height * self.width == self.width * self.height) by (nonlinear_arith);
            }
            total += n;
            y += 1;
        }
        assert(cells.take(self.height as int) =~= cells);
        assert(self.height * self.width == self.width * self.height) by (nonlinear_arith);
        total
    }

    /// Whether every cell is off: whether the score is the number of cells.
    fn end(&self) -> (b: bool)
        ensures
            b == self@.all_off(),
            b == (self@.off_cells() == self@.width * self@.height),
    {
        proof {
            lemma_all_off_iff_full_score(self@);
        }
        self.score() == self.width * self.height
    }

    /// The toggles that are accepted, column by column and within a column
    /// from the top down, each with the identifier of its cell.
    fn moves(&self) -> (m: Vec<(Self, usize)>) {
        let init_score = self.score();
        let ghost g = self@;
        let mut out: Vec<(Board, usize)> = Vec::new();
        let mut x: usize = 0;
        while x < self.width
            invariant
                x <= self.width,
                self.inv(),
                g == self@,
                init_score == g.off_cells(),
                lists(out@, g.moves_in_columns(x as nat)),
            decreases self.width - x,
        {
            let ghost before = g.moves_in_columns(x as nat);
            let mut y: usize = 0;
            assert(before + g.moves_in_column(x as int, 0) =~= before);
            while y < self.height
                invariant
                    y <= self.height,
                    x < self.width,
                    self.inv(),
                    g == self@,
                    init_score == g.off_cells(),
                    before == g.moves_in_columns(x as nat),
                    lists(out@, before + g.moves_in_column(x as int, y as nat)),
                decreases self.height - y,
            {
                let ghost above = g.moves_in_column(x as int, y as nat);
                let board = self.clone_toggle(x, y);
                let mut target: usize = 3;
                if x > 0 && x < self.width - 1 {
                    target += 1;
                }
                if y > 0 && y < self.height - 1 {
                    target += 1;
                }
                let new_score = board.score();
                proof {
                    lemma_move_id_fits(g, x as int, y as int);
                    assert(target == g.expected_flips(x as int, y as int));
                }
                if new_score >= init_score && new_score - init_score == target {
                    let id = x * self.width + y;
                    let ghost step = (g.toggled(x as int, y as int), id);
                    out.push((board, id));
                    assert((before + above).push(step) =~= before + above.push(step));
                }
                y += 1;
            }
            x += 1;
        }
        out
    }

    /// Whether the two boards have the same shape and the same cells.
    fn same(&self, other: &Self) -> (b: bool) {
        proof {
            self.lemma_layout(other);
        }
        *self == *other
    }
}

/// The boards on a way from a valid board are valid and have its shape.
proof fn lemma_way_keeps_shape(init: Grid, path: Seq<usize>, states: Seq<Grid>, k: int)
    requires
        init.valid(),
        follows::<Board>(init, path, states),
        0 <= k <= path.len(),
    ensures
        state_before(init, states, k).valid(),
        state_before(init, states, k).width == init.width,
        state_before(init, states, k).height == init.height,
    decreases k,
{
    if k > 0 {
        lemma_way_keeps_shape(init, path, states, k - 1);
        let prev = state_before(init, states, k - 1);
        let next = states[k - 1];
        assert(is_move::<Board>(prev, path[k - 1], next));
        let i = choose|i: int|
            0 <= i < Board::successors(prev).len() && #[trigger] Board::successors(prev)[i] == (
                next,
                path[k - 1],
            );
        let origin = lemma_moves_are_toggles(prev, i);
        lemma_toggled_shape(prev, origin.0, origin.1);
    }
}

/// On a board that is no higher than wide, or has one column, every board
/// that can be reached has for each identifier one state that its moves lead
/// to.
pub proof fn lemma_reachable_unambiguous(init: Grid)
    requires
        init.valid(),
        init.height <= init.width || init.width <= 1,
    ensures
        forall|p: Seq<usize>, v: Grid| #[trigger]
            reaches::<Board>(init, p, v) ==> unambiguous::<Board>(v),
{
    assert forall|p: Seq<usize>, v: Grid| #[trigger] reaches::<Board>(init, p, v) implies unambiguous::<
        Board,
    >(v) by {
        let states = choose|states: Seq<Grid>| #[trigger]
            follows::<Board>(init, p, states) && last_or(states, init) == v;
        lemma_way_keeps_shape(init, p, states, p.len() as int);
        let steps = Board::successors(v);
        assert forall|j: int, k: int|
            0 <= j < steps.len() && 0 <= k < steps.len() && (#[trigger] steps[j]).1 == (
            #[trigger] steps[k]).1 implies steps[j].0 == steps[k].0 by {
            lemma_moves_unambiguous(v, j, k);
        }
    }
}

/// A search from a valid board ends, whatever the depth bound.
pub proof fn lemma_board_search_halts(init: Grid, max_depth: usize)
    requires
        init.valid(),
    ensures
        halts::<Board>(init, max_depth),
{
    assert forall|p: Seq<usize>, v: Grid| #[trigger]
        reaches::<Board>(init, p, v) implies Board::successors(v).len() <= usize::MAX by {
        let states = choose|states: Seq<Grid>| #[trigger]
            follows::<Board>(init, p, states) && last_or(states, init) == v;
        lemma_way_keeps_shape(init, p, states, p.len() as int);
        lemma_moves_len(v);
    }
    lemma_search_halts::<Board>(init, max_depth);
}

/// On a board that is no higher than wide, or has one column, a replay of the
/// path of a solution from the initial board ends in the board of the
/// solution.
pub proof fn lemma_board_solution_replays(init: Grid, max_depth: usize)
    requires
        init.valid(),
        init.height <= init.width || init.width <= 1,
    ensures
        solution::<Board>(init, max_depth) matches Some(node) ==> replay_end::<Board>(
            init,
            node.path(),
        ) == Some(node.latest),
{
    lemma_reachable_unambiguous(init);
    lemma_solution_replays::<Board>(init, max_depth);
}

} // verus!
