//! Lines of the board.
//!
//! A word lies along a line: a row when it is played horizontally, a column
//! when it is played vertically. A cell of a line is named by the number of
//! the line and the cell's offset within it, so that one statement covers
//! both directions.

use vstd::prelude::*;
use crate::alphabet::{BOARD_SIZE, EMPTY_VALUE};
use crate::board::{grid_index, in_grid, is_cell_value, Board};

verus! {

/// Enumeration of the direction a word is played.
#[derive(Clone, Copy, PartialEq, Eq, Structural, Debug)]
pub enum Direction {
    /// The word is played horizontally.
    Horizontal,
    /// The word is played vertically.
    Vertical,
}

impl Direction {
    /// The other direction.
    pub open spec fn flip(self) -> Direction {
        match self {
            Direction::Horizontal => Direction::Vertical,
            Direction::Vertical => Direction::Horizontal,
        }
    }

    /// The other direction.
    pub fn flipped(&self) -> (other: Direction)
        ensures
            other == self.flip(),
    {
        match self {
            Direction::Horizontal => Direction::Vertical,
            Direction::Vertical => Direction::Horizontal,
        }
    }

    /// The name of the direction.
    pub fn name(&self) -> (s: &'static str)
        ensures
            s@ == match self {
                Direction::Horizontal => "Horizontal"@,
                Direction::Vertical => "Vertical"@,
            },
    {
        match self {
            Direction::Horizontal => "Horizontal",
            Direction::Vertical => "Vertical",
        }
    }
}

/// The row of the cell at offset `off` of line `line`.
pub open spec fn line_row(dir: Direction, line: int, off: int) -> int {
    match dir {
        Direction::Horizontal => line,
        Direction::Vertical => off,
    }
}

/// The column of the cell at offset `off` of line `line`.
pub open spec fn line_col(dir: Direction, line: int, off: int) -> int {
    match dir {
        Direction::Horizontal => off,
        Direction::Vertical => line,
    }
}

/// The place in the cell sequence of the cell at offset `off` of line `line`.
pub open spec fn line_index(dir: Direction, line: int, off: int) -> int {
    grid_index(line_row(dir, line, off), line_col(dir, line, off))
}

/// The cell at offset `off` of line `line` is on the board and holds a letter.
pub open spec fn filled(g: Seq<usize>, dir: Direction, line: int, off: int) -> bool {
    in_grid(line, off) && g[line_index(dir, line, off)] != EMPTY_VALUE
}

impl Board {
    /// Gets the value of the cell at offset `off` of line `line`.
    pub fn get_at(&self, dir: Direction, line: usize, off: usize) -> (val: usize)
        requires
            self.wf(),
            in_grid(line as int, off as int),
        ensures
            val == self@[line_index(dir, line as int, off as int)],
            is_cell_value(val),
            (val != EMPTY_VALUE) == filled(self@, dir, line as int, off as int),
    {
        match dir {
            Direction::Horizontal => self.get_val(line, off),
            Direction::Vertical => self.get_val(off, line),
        }
    }

    /// Sets the cell at offset `off` of line `line` to `val`.
    pub fn set_at(&mut self, dir: Direction, line: usize, off: usize, val: usize)
        requires
            old(self).wf(),
            in_grid(line as int, off as int),
            is_cell_value(val),
        ensures
            final(self).wf(),
            final(self)@ == old(self)@.update(line_index(dir, line as int, off as int), val),
    {
        match dir {
            Direction::Horizontal => self.set_val(line, off, val),
            Direction::Vertical => self.set_val(off, line, val),
        }
    }

    /// Tells whether the cell at offset `off` of line `line` holds a letter.
    /// A cell beyond the last line or the last offset holds none.
    pub fn is_filled(&self, dir: Direction, line: usize, off: usize) -> (res: bool)
        requires
            self.wf(),
        ensures
            res == filled(self@, dir, line as int, off as int),
    {
        line < BOARD_SIZE && off < BOARD_SIZE && self.get_at(dir, line, off) != EMPTY_VALUE
    }
}

} // verus!
