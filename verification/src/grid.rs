//! The board: eighty-one cells, row by row.
//!
//! The mathematical model of a board is the sequence of its cells, each cell
//! the sequence of its nine bits.

use crate::bits::push_char;
use crate::cell::{
    build_elem, count, decimal, decimal_char, full, invalid, lemma_within_count, listing, lowest,
    minus, single, solved, vacant, within, Cell,
};
use vstd::prelude::*;

verus! {

/// A board has eighty-one cells of width nine.
pub open spec fn board(g: Seq<Seq<bool>>) -> bool {
    &&& g.len() == 81
    &&& forall|i: int| 0 <= i < 81 ==> (#[trigger] g[i]).len() == 9
}

/// Every cell of `a` lies within the cell of `b` at the same place: `a` has
/// taken digits away from `b` and added none.
pub open spec fn refines(a: Seq<Seq<bool>>, b: Seq<Seq<bool>>) -> bool {
    forall|i: int| 0 <= i < 81 ==> within(#[trigger] a[i], b[i])
}

/// Some cell of the board is a contradiction.
pub open spec fn contradictory(g: Seq<Seq<bool>>) -> bool {
    exists|i: int| 0 <= i < 81 && invalid(#[trigger] g[i])
}

/// Every cell of the board is solved.
pub open spec fn complete(g: Seq<Seq<bool>>) -> bool {
    forall|i: int| 0 <= i < 81 ==> solved(#[trigger] g[i])
}

/// The digits left in the first `n` cells, counted over all of them.
pub open spec fn total_below(g: Seq<Seq<bool>>, n: int) -> int
    decreases n,
{
    if n <= 0 {
        0
    } else {
        total_below(g, n - 1) + count(g[n - 1])
    }
}

/// The digits left on the board, counted over all cells.
pub open spec fn total(g: Seq<Seq<bool>>) -> int {
    total_below(g, 81)
}

/// The board that the input numbers describe: a blank for zero, a clue for a
/// digit.
pub open spec fn clues(nums: Seq<usize>) -> Seq<Seq<bool>> {
    Seq::new(
        81,
        |i: int|
            if nums[i] == 0 {
                full()
            } else {
                single(nums[i] - 1)
            },
    )
}

/// The character that stands for a cell in the compact rendering: its digit
/// if it is solved, `X` if it is a contradiction, `?` if it is still open.
pub open spec fn glyph(c: Seq<bool>) -> char {
    if solved(c) {
        decimal(lowest(c) + 1)
    } else if invalid(c) {
        'X'
    } else {
        '?'
    }
}

/// The compact rendering: nine lines, each of nine glyphs and a line feed.
pub open spec fn compact(g: Seq<Seq<bool>>) -> Seq<char> {
    Seq::new(
        90,
        |p: int|
            if p % 10 == 9 {
                '\n'
            } else {
                glyph(g[(p / 10) * 9 + p % 10])
            },
    )
}

/// The line of the verbose rendering for cell `i`: its row and column in
/// brackets, a space, the digits left, a line feed.
pub open spec fn entry(g: Seq<Seq<bool>>, i: int) -> Seq<char> {
    seq!['(', decimal(i / 9), ',', decimal(i % 9), ')', ' '] + listing(g[i]) + seq!['\n']
}

/// The verbose rendering of the first `n` cells.
pub open spec fn verbose_below(g: Seq<Seq<bool>>, n: int) -> Seq<char>
    decreases n,
{
    if n <= 0 {
        Seq::empty()
    } else {
        verbose_below(g, n - 1) + entry(g, n - 1)
    }
}

/// The verbose rendering: one line for each cell.
pub open spec fn verbose(g: Seq<Seq<bool>>) -> Seq<char> {
    verbose_below(g, 81)
}

/// A board that refines another has no more digits left in its first `n`
/// cells.
pub proof fn lemma_total_below_le(a: Seq<Seq<bool>>, b: Seq<Seq<bool>>, n: int)
    requires
        refines(a, b),
        0 <= n <= 81,
    ensures
        total_below(a, n) <= total_below(b, n),
    decreases n,
{
    if n > 0 {
        lemma_total_below_le(a, b, n - 1);
        assert(within(a[n - 1], b[n - 1]));
        lemma_within_count(a[n - 1], b[n - 1]);
    }
}

/// A board that refines another, and has fewer digits left in cell `i`, has
/// fewer digits left in its first `n` cells, for `n` beyond `i`.
pub proof fn lemma_total_below_lt(a: Seq<Seq<bool>>, b: Seq<Seq<bool>>, n: int, i: int)
    requires
        refines(a, b),
        0 <= i < n <= 81,
        count(a[i]) < count(b[i]),
    ensures
        total_below(a, n) < total_below(b, n),
    decreases n,
{
    assert(within(a[n - 1], b[n - 1]));
    lemma_within_count(a[n - 1], b[n - 1]);
    if i == n - 1 {
        lemma_total_below_le(a, b, n - 1);
    } else {
        lemma_total_below_lt(a, b, n - 1, i);
    }
}

/// Refinement never adds digits: the total does not grow.
pub proof fn lemma_total_le(a: Seq<Seq<bool>>, b: Seq<Seq<bool>>)
    requires
        refines(a, b),
    ensures
        total(a) <= total(b),
{
    lemma_total_below_le(a, b, 81);
}

/// Refinement that takes a digit away from cell `i` lowers the total.
pub proof fn lemma_total_lt(a: Seq<Seq<bool>>, b: Seq<Seq<bool>>, i: int)
    requires
        refines(a, b),
        0 <= i < 81,
        count(a[i]) < count(b[i]),
    ensures
        total(a) < total(b),
{
    lemma_total_below_lt(a, b, 81, i);
}

/// The total is never negative.
pub proof fn lemma_total_below_nonnegative(g: Seq<Seq<bool>>, n: int)
    ensures
        total_below(g, n) >= 0,
    decreases n,
{
    if n > 0 {
        lemma_total_below_nonnegative(g, n - 1);
    }
}

/// The board of a Sudoku puzzle.
pub struct Grid {
    cells: Vec<Cell>,
}

impl View for Grid {
    type V = Seq<Seq<bool>>;

    /// The cells in order, index `9 * row + column`.
    closed spec fn view(&self) -> Seq<Seq<bool>> {
        Seq::new(self.cells@.len(), |i: int| self.cells@[i]@)
    }
}

impl Grid {
    /// A grid always has eighty-one cells of width nine.
    pub open spec fn wf(&self) -> bool {
        board(self@)
    }

    /// The cell at index `i`.
    pub fn cell(&self, i: usize) -> (c: &Cell)
        requires
            self.wf(),
            i < 81,
        ensures
            c.wf(),
            c@ == self@[i as int],
    {
        assert(self@[i as int].len() == 9);
        &self.cells[i]
    }

    /// Puts `c` in place of the cell at index `i`.
    pub fn set_cell(&mut self, i: usize, c: Cell)
        requires
            old(self).wf(),
            c.wf(),
            i < 81,
        ensures
            final(self).wf(),
            final(self)@ == old(self)@.update(i as int, c@),
    {
        self.cells[i] = c;
        assert(self@ =~= old(self)@.update(i as int, c@));
        assert forall|j: int| 0 <= j < 81 implies (#[trigger] self@[j]).len() == 9 by {
            assert(old(self)@[j].len() == 9);
        }
    }

    /// Removes from the cell at index `i` every digit that `mask` holds, and
    /// says whether that cell changed.
    pub fn restrict_cell(&mut self, i: usize, mask: &Cell) -> (changed: bool)
        requires
            old(self).wf(),
            mask.wf(),
            i < 81,
        ensures
            final(self).wf(),
            final(self)@ == old(self)@.update(i as int, minus(old(self)@[i as int], mask@)),
            changed == (final(self)@[i as int] != old(self)@[i as int]),
    {
        assert(self@[i as int].len() == 9);
        let changed = self.cells[i].restrict(mask);
        assert(self@ =~= old(self)@.update(i as int, minus(old(self)@[i as int], mask@)));
        assert forall|j: int| 0 <= j < 81 implies (#[trigger] self@[j]).len() == 9 by {
            assert(old(self)@[j].len() == 9);
        }
        changed
    }

    /// Leaves no digit in the cell at index `i`.
    pub fn clear_cell(&mut self, i: usize)
        requires
            old(self).wf(),
            i < 81,
        ensures
            final(self).wf(),
            final(self)@ == old(self)@.update(i as int, vacant()),
    {
        assert(self@[i as int].len() == 9);
        self.cells[i].clear();
        assert(self@ =~= old(self)@.update(i as int, vacant()));
        assert forall|j: int| 0 <= j < 81 implies (#[trigger] self@[j]).len() == 9 by {
            assert(old(self)@[j].len() == 9);
        }
    }

    /// Is the board a contradiction? It is when any cell is.
    pub fn is_invalid(&self) -> (r: bool)
        requires
            self.wf(),
        ensures
            r == contradictory(self@),
    {
        let mut i: usize = 0;
        while i < 81
            invariant
                i <= 81,
                self.wf(),
                forall|j: int| 0 <= j < i ==> !invalid(#[trigger] self@[j]),
            decreases 81 - i,
        {
            if self.cell(i).is_invalid() {
                return true;
            }
            i = i + 1;
        }
        false
    }

    /// The number of cells in a row, which is also the number of rows.
    pub fn row_size(&self) -> (r: usize)
        requires
            self.wf(),
        ensures
            r * r == self@.len(),
    {
        9
    }

    /// The verbose rendering: for each cell a line with its row and column
    /// and the digits that are left in it.
    pub fn print(&self) -> (r: String)
        requires
            self.wf(),
        ensures
            r@ == verbose(self@),
    {
        let mut r = String::new();
        let mut i: usize = 0;
        while i < 81
            invariant
                i <= 81,
                self.wf(),
                r@ == verbose_below(self@, i as int),
            decreases 81 - i,
        {
            let ghost before = r@;
            push_char(&mut r, '(');
            push_char(&mut r, decimal_char(i / 9));
            push_char(&mut r, ',');
            push_char(&mut r, decimal_char(i % 9));
            push_char(&mut r, ')');
            push_char(&mut r, ' ');
            self.cell(i).write_to(&mut r);
            push_char(&mut r, '\n');
            assert(r@ =~= before + entry(self@, i as int));
            i = i + 1;
        }
        r
    }

    /// The compact rendering: nine lines of nine characters, a digit for a
    /// solved cell, `X` for a contradiction, `?` for a cell still open.
    pub fn print_compact(&self) -> (r: String)
        requires
            self.wf(),
        ensures
            r@ == compact(self@),
    {
        let mut r = String::new();
        let mut i: usize = 0;
        while i < 9
            invariant
                i <= 9,
                self.wf(),
                r@.len() == 10 * i,
                forall|p: int| 0 <= p < r@.len() ==> #[trigger] r@[p] == compact(self@)[p],
            decreases 9 - i,
        {
            let mut j: usize = 0;
            while j < 9
                invariant
                    i < 9,
                    j <= 9,
                    self.wf(),
                    r@.len() == 10 * i + j,
                    forall|p: int| 0 <= p < r@.len() ==> #[trigger] r@[p] == compact(self@)[p],
                decreases 9 - j,
            {
                let e = self.cell(9 * i + j);
                let c = if e.is_solved() {
                    decimal_char(e.digit())
                } else if e.is_invalid() {
                    'X'
                } else {
                    '?'
                };
                push_char(&mut r, c);
                j = j + 1;
            }
            push_char(&mut r, '\n');
            i = i + 1;
        }
        assert(r@ =~= compact(self@));
        r
    }
}

impl Clone for Grid {
    /// A copy of the board, cell by cell.
    fn clone(&self) -> (r: Self)
        ensures
            r@ == self@,
    {
        let mut cells: Vec<Cell> = Vec::new();
        let mut i: usize = 0;
        while i < self.cells.len()
            invariant
                i <= self.cells@.len(),
                cells@.len() == i,
                forall|j: int| 0 <= j < i ==> (#[trigger] cells@[j])@ == self.cells@[j]@,
            decreases self.cells@.len() - i,
        {
            cells.push(self.cells[i].clone());
            i = i + 1;
        }
        let r = Grid { cells };
        assert(r@ =~= self@);
        r
    }
}

/// The board for the input numbers, row by row: zero is a blank, a digit from
/// one to nine is a clue.
pub fn build_grid(nums: &Vec<usize>) -> (r: Grid)
    requires
        nums@.len() == 81,
        forall|i: int| 0 <= i < 81 ==> #[trigger] nums@[i] <= 9,
    ensures
        r.wf(),
        r@ == clues(nums@),
{
    let mut cells: Vec<Cell> = Vec::new();
    let mut i: usize = 0;
    while i < 81
        invariant
            i <= 81,
            nums@.len() == 81,
            forall|j: int| 0 <= j < 81 ==> #[trigger] nums@[j] <= 9,
            cells@.len() == i,
            forall|j: int| 0 <= j < i ==> (#[trigger] cells@[j])@ == clues(nums@)[j],
        decreases 81 - i,
    {
        let c = build_elem(nums[i]);
        cells.push(c);
        i = i + 1;
    }
    let r = Grid { cells };
    assert(r@ =~= clues(nums@));
    r
}

} // verus!
