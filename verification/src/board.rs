//! The board: a square grid of cells, each empty or holding one letter.

use vstd::prelude::*;
use crate::alphabet::{BOARD_SIZE, EMPTY_VALUE};

verus! {

/// The place of cell (`row`, `col`) in the row-major sequence of cells.
pub open spec fn grid_index(row: int, col: int) -> int {
    row * (BOARD_SIZE as int) + col
}

/// (`row`, `col`) names a cell of the board.
pub open spec fn in_grid(row: int, col: int) -> bool {
    0 <= row < BOARD_SIZE && 0 <= col < BOARD_SIZE
}

/// `v` is what a cell may hold: a letter or the empty value.
pub open spec fn is_cell_value(v: usize) -> bool {
    v < 26 || v == EMPTY_VALUE
}

/// `g` is the cell sequence of a board: one value per cell, each a letter or empty.
pub open spec fn grid_wf(g: Seq<usize>) -> bool {
    &&& g.len() == BOARD_SIZE * BOARD_SIZE
    &&& forall|i: int| 0 <= i < g.len() ==> is_cell_value(#[trigger] g[i])
}

/// Cell (`row`, `col`) is on the board and holds a letter.
pub open spec fn occupied(g: Seq<usize>, row: int, col: int) -> bool {
    in_grid(row, col) && g[grid_index(row, col)] != EMPTY_VALUE
}

/// No cell of `g` holds a letter.
pub open spec fn grid_is_empty(g: Seq<usize>) -> bool {
    forall|i: int| 0 <= i < g.len() ==> #[trigger] g[i] == EMPTY_VALUE
}

/// The board with every cell empty.
pub open spec fn empty_grid() -> Seq<usize> {
    Seq::new((BOARD_SIZE * BOARD_SIZE) as nat, |i: int| EMPTY_VALUE)
}

/// The current board.
pub struct Board {
    /// The cells in row-major order.
    arr: Vec<usize>,
}

impl View for Board {
    type V = Seq<usize>;

    /// The cells of the board in row-major order.
    closed spec fn view(&self) -> Seq<usize> {
        self.arr@
    }
}

impl Board {
    /// The board holds one valid value for each of its cells.
    pub open spec fn wf(&self) -> bool {
        grid_wf(self@)
    }

    /// Creates a new board of `BOARD_SIZE` by `BOARD_SIZE` cells, all empty.
    pub fn new() -> (board: Board)
        ensures
            board.wf(),
            board@ == empty_grid(),
    {
        let mut arr: Vec<usize> = Vec::with_capacity(BOARD_SIZE * BOARD_SIZE);
        let mut i: usize = 0;
        while i < BOARD_SIZE * BOARD_SIZE
            invariant
                i <= BOARD_SIZE * BOARD_SIZE,
                arr@.len() == i,
                forall|j: int| 0 <= j < i ==> arr@[j] == EMPTY_VALUE,
            decreases BOARD_SIZE * BOARD_SIZE - i,
        {
            arr.push(EMPTY_VALUE);
            i += 1;
        }
        assert(arr@ =~= empty_grid());
        Board { arr }
    }

    /// Gets the value of the cell at (`row`, `col`).
    pub fn get_val(&self, row: usize, col: usize) -> (val: usize)
        requires
            self.wf(),
            in_grid(row as int, col as int),
        ensures
            val == self@[grid_index(row as int, col as int)],
            is_cell_value(val),
    {
        self.arr[row * BOARD_SIZE + col]
    }

    /// Sets the cell at (`row`, `col`) to `val`.
    pub fn set_val(&mut self, row: usize, col: usize, val: usize)
        requires
            old(self).wf(),
            in_grid(row as int, col as int),
            is_cell_value(val),
        ensures
            final(self).wf(),
            final(self)@ == old(self)@.update(grid_index(row as int, col as int), val),
    {
        self.arr.set(row * BOARD_SIZE + col, val);
    }
}

impl Clone for Board {
    /// A board with the same cells.
    fn clone(&self) -> (copy: Board)
        ensures
            copy@ == self@,
    {
        Board { arr: self.arr.clone() }
    }
}

} // verus!
