//! The bounding box of the letters on the board.

use vstd::prelude::*;
use crate::alphabet::BOARD_SIZE;
use crate::board::occupied;
use crate::line::{filled, line_col, line_row, Direction};

verus! {

/// The minimum and maximum played columns and rows of a board.
#[derive(Clone, Copy, PartialEq, Eq, Structural, Debug)]
pub struct Bounds {
    /// The minimum played column.
    pub min_col: usize,
    /// The maximum played column.
    pub max_col: usize,
    /// The minimum played row.
    pub min_row: usize,
    /// The maximum played row.
    pub max_row: usize,
}

impl Bounds {
    /// The bounds name a rectangle of cells of the board.
    pub open spec fn wf(self) -> bool {
        self.min_col <= self.max_col < BOARD_SIZE && self.min_row <= self.max_row < BOARD_SIZE
    }

    /// The cell (`row`, `col`) lies within the bounds.
    pub open spec fn holds(self, row: int, col: int) -> bool {
        self.min_row <= row <= self.max_row && self.min_col <= col <= self.max_col
    }

    /// Every letter of the board lies within the bounds.
    pub open spec fn covers(self, g: Seq<usize>) -> bool {
        forall|r: int, c: int| #[trigger] occupied(g, r, c) ==> self.holds(r, c)
    }

    /// The bounds are the smallest rectangle that holds every letter of the
    /// board: each of its four sides holds a letter.
    pub open spec fn frames(self, g: Seq<usize>) -> bool {
        &&& self.wf()
        &&& self.covers(g)
        &&& exists|c: int| #[trigger] occupied(g, self.min_row as int, c)
        &&& exists|c: int| #[trigger] occupied(g, self.max_row as int, c)
        &&& exists|r: int| #[trigger] occupied(g, r, self.min_col as int)
        &&& exists|r: int| #[trigger] occupied(g, r, self.max_col as int)
    }

    /// The least line of direction `dir` that holds a letter.
    pub open spec fn min_line(self, dir: Direction) -> usize {
        match dir {
            Direction::Horizontal => self.min_row,
            Direction::Vertical => self.min_col,
        }
    }

    /// The greatest line of direction `dir` that holds a letter.
    pub open spec fn max_line(self, dir: Direction) -> usize {
        match dir {
            Direction::Horizontal => self.max_row,
            Direction::Vertical => self.max_col,
        }
    }

    /// The least offset at which a line of direction `dir` holds a letter.
    pub open spec fn min_off(self, dir: Direction) -> usize {
        match dir {
            Direction::Horizontal => self.min_col,
            Direction::Vertical => self.min_row,
        }
    }

    /// The greatest offset at which a line of direction `dir` holds a letter.
    pub open spec fn max_off(self, dir: Direction) -> usize {
        match dir {
            Direction::Horizontal => self.max_col,
            Direction::Vertical => self.max_row,
        }
    }

    /// The bounds widened to hold the cells of line `line` from offset
    /// `start` to offset `end`.
    pub open spec fn widen(self, dir: Direction, line: usize, start: usize, end: usize) -> Bounds {
        match dir {
            Direction::Horizontal => Bounds {
                min_col: if start < self.min_col {
                    start
                } else {
                    self.min_col
                },
                max_col: if end > self.max_col {
                    end
                } else {
                    self.max_col
                },
                min_row: if line < self.min_row {
                    line
                } else {
                    self.min_row
                },
                max_row: if line > self.max_row {
                    line
                } else {
                    self.max_row
                },
            },
            Direction::Vertical => Bounds {
                min_col: if line < self.min_col {
                    line
                } else {
                    self.min_col
                },
                max_col: if line > self.max_col {
                    line
                } else {
                    self.max_col
                },
                min_row: if start < self.min_row {
                    start
                } else {
                    self.min_row
                },
                max_row: if end > self.max_row {
                    end
                } else {
                    self.max_row
                },
            },
        }
    }

    /// The bounds of a play alone: line `line` from offset `start` to offset `end`.
    pub open spec fn of_play(dir: Direction, line: usize, start: usize, end: usize) -> Bounds {
        match dir {
            Direction::Horizontal => Bounds { min_col: start, max_col: end, min_row: line, max_row: line },
            Direction::Vertical => Bounds { min_col: line, max_col: line, min_row: start, max_row: end },
        }
    }

    /// Widens the bounds to hold the cells of line `line` from offset `start`
    /// to offset `end`.
    pub fn widened(&self, dir: Direction, line: usize, start: usize, end: usize) -> (wider: Bounds)
        ensures
            wider == self.widen(dir, line, start, end),
    {
        let (min_line, max_line, min_off, max_off) = match dir {
            Direction::Horizontal => (self.min_row, self.max_row, self.min_col, self.max_col),
            Direction::Vertical => (self.min_col, self.max_col, self.min_row, self.max_row),
        };
        let new_min_line = if line < min_line {
            line
        } else {
            min_line
        };
        let new_max_line = if line > max_line {
            line
        } else {
            max_line
        };
        let new_min_off = if start < min_off {
            start
        } else {
            min_off
        };
        let new_max_off = if end > max_off {
            end
        } else {
            max_off
        };
        match dir {
            Direction::Horizontal => Bounds {
                min_col: new_min_off,
                max_col: new_max_off,
                min_row: new_min_line,
                max_row: new_max_line,
            },
            Direction::Vertical => Bounds {
                min_col: new_min_line,
                max_col: new_max_line,
                min_row: new_min_off,
                max_row: new_max_off,
            },
        }
    }

    /// The bounds in the coordinates of direction `dir`: the least and the
    /// greatest line, and the least and the greatest offset.
    pub fn along(&self, dir: Direction) -> (res: (usize, usize, usize, usize))
        ensures
            res.0 == self.min_line(dir),
            res.1 == self.max_line(dir),
            res.2 == self.min_off(dir),
            res.3 == self.max_off(dir),
    {
        match dir {
            Direction::Horizontal => (self.min_row, self.max_row, self.min_col, self.max_col),
            Direction::Vertical => (self.min_col, self.max_col, self.min_row, self.max_row),
        }
    }
}

/// Bounds that frame a board, widened by a play on it, frame the board after the play.
pub proof fn lemma_widen_frames(
    bounds: Bounds,
    g: Seq<usize>,
    g2: Seq<usize>,
    dir: Direction,
    line: usize,
    start: usize,
    end: usize,
)
    requires
        bounds.frames(g),
        line < BOARD_SIZE,
        start <= end < BOARD_SIZE,
        forall|r: int, c: int| occupied(g, r, c) ==> occupied(g2, r, c),
        forall|off: int| start <= off <= end ==> #[trigger] filled(g2, dir, line as int, off),
        forall|l2: int, o2: int|
            #[trigger] filled(g2, dir, l2, o2) ==> filled(g, dir, l2, o2) || (l2 == line && start <= o2
                <= end),
    ensures
        bounds.widen(dir, line, start, end).frames(g2),
{
    let wider = bounds.widen(dir, line, start, end);
    assert forall|r: int, c: int| #[trigger] occupied(g2, r, c) implies wider.holds(r, c) by {
        let (l2, o2) = match dir {
            Direction::Horizontal => (r, c),
            Direction::Vertical => (c, r),
        };
        assert(filled(g2, dir, l2, o2));
        if filled(g, dir, l2, o2) {
            assert(occupied(g, r, c));
        }
    }
    let c1 = choose|c: int| #[trigger] occupied(g, bounds.min_row as int, c);
    let c2 = choose|c: int| #[trigger] occupied(g, bounds.max_row as int, c);
    let r1 = choose|r: int| #[trigger] occupied(g, r, bounds.min_col as int);
    let r2 = choose|r: int| #[trigger] occupied(g, r, bounds.max_col as int);
    assert(occupied(g2, bounds.min_row as int, c1));
    assert(occupied(g2, bounds.max_row as int, c2));
    assert(occupied(g2, r1, bounds.min_col as int));
    assert(occupied(g2, r2, bounds.max_col as int));
    assert(filled(g2, dir, line as int, start as int));
    assert(filled(g2, dir, line as int, end as int));
    assert(occupied(g2, line_row(dir, line as int, start as int), line_col(dir, line as int, start as int)));
    assert(occupied(g2, line_row(dir, line as int, end as int), line_col(dir, line as int, end as int)));
}

/// The bounds of a play alone frame the board that holds nothing but the play.
pub proof fn lemma_play_alone_frames(g2: Seq<usize>, dir: Direction, line: usize, start: usize, end: usize)
    requires
        line < BOARD_SIZE,
        start <= end < BOARD_SIZE,
        forall|off: int| start <= off <= end ==> #[trigger] filled(g2, dir, line as int, off),
        forall|l2: int, o2: int| #[trigger] filled(g2, dir, l2, o2) ==> l2 == line && start <= o2 <= end,
    ensures
        Bounds::of_play(dir, line, start, end).frames(g2),
{
    let bounds = Bounds::of_play(dir, line, start, end);
    assert forall|r: int, c: int| #[trigger] occupied(g2, r, c) implies bounds.holds(r, c) by {
        let (l2, o2) = match dir {
            Direction::Horizontal => (r, c),
            Direction::Vertical => (c, r),
        };
        assert(filled(g2, dir, l2, o2));
    }
    assert(filled(g2, dir, line as int, start as int));
    assert(filled(g2, dir, line as int, end as int));
    assert(occupied(g2, line_row(dir, line as int, start as int), line_col(dir, line as int, start as int)));
    assert(occupied(g2, line_row(dir, line as int, end as int), line_col(dir, line as int, end as int)));
}

} // verus!
