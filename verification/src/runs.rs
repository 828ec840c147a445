//! Runs of letters and the validity of a board.
//!
//! A run is a stretch of filled cells along a line that cannot be extended at
//! either end. A board is valid with respect to a set of words when every run
//! of two or more letters, along a row or along a column, spells one of them.

use vstd::prelude::*;
use crate::alphabet::{BOARD_SIZE, MAX_WORD_LENGTH};
use crate::board::{grid_wf, in_grid};
use crate::line::{filled, line_index, Direction};

verus! {

/// The offset at which the run through the cell at offset `off` of line `line` starts.
pub open spec fn run_start(g: Seq<usize>, dir: Direction, line: int, off: int) -> int
    decreases off,
{
    if off > 0 && filled(g, dir, line, off - 1) {
        run_start(g, dir, line, off - 1)
    } else {
        off
    }
}

/// The offset at which the run through the cell at offset `off` of line `line` ends.
pub open spec fn run_end(g: Seq<usize>, dir: Direction, line: int, off: int) -> int
    decreases BOARD_SIZE - off,
{
    if off < BOARD_SIZE - 1 && filled(g, dir, line, off + 1) {
        run_end(g, dir, line, off + 1)
    } else {
        off
    }
}

/// The values of the cells of line `line` from offset `from` to offset `to`.
pub open spec fn read_line(g: Seq<usize>, dir: Direction, line: int, from: int, to: int) -> Seq<usize> {
    Seq::new((to - from + 1) as nat, |k: int| g[line_index(dir, line, from + k)])
}

/// The cells of line `line` from offset `from` to offset `to` are a run:
/// all of them are filled, and the cells before and behind them are not.
pub open spec fn is_run(g: Seq<usize>, dir: Direction, line: int, from: int, to: int) -> bool {
    &&& 0 <= line < BOARD_SIZE
    &&& 0 <= from <= to < BOARD_SIZE
    &&& forall|k: int| from <= k <= to ==> #[trigger] filled(g, dir, line, k)
    &&& !filled(g, dir, line, from - 1)
    &&& !filled(g, dir, line, to + 1)
}

/// A run may stand on the board: it is a single letter, or a word of the
/// set that is no longer than the longest word there can be.
pub open spec fn acceptable(run: Seq<usize>, dict: Set<Seq<usize>>) -> bool {
    run.len() < 2 || (run.len() <= MAX_WORD_LENGTH && dict.contains(run))
}

/// The run through the cell at offset `off` of line `line` may stand on the board.
pub open spec fn run_ok(g: Seq<usize>, dict: Set<Seq<usize>>, dir: Direction, line: int, off: int) -> bool {
    acceptable(
        read_line(g, dir, line, run_start(g, dir, line, off), run_end(g, dir, line, off)),
        dict,
    )
}

/// Every run of two or more letters along a line of direction `dir` is a word of the set.
pub open spec fn lines_valid(g: Seq<usize>, dict: Set<Seq<usize>>, dir: Direction) -> bool {
    forall|line: int, from: int, to: int|
        #[trigger] is_run(g, dir, line, from, to) && from < to ==> dict.contains(
            read_line(g, dir, line, from, to),
        )
}

/// Every run of two or more letters, along a row or a column, is a word of the set.
pub open spec fn board_valid(g: Seq<usize>, dict: Set<Seq<usize>>) -> bool {
    lines_valid(g, dict, Direction::Horizontal) && lines_valid(g, dict, Direction::Vertical)
}

/// The runs that a play along line `line`, from offset `start` to offset
/// `end`, has made or changed may all stand on the board: the run along the
/// line, and the run across it through each cell of the play.
pub open spec fn play_is_valid(
    g: Seq<usize>,
    dict: Set<Seq<usize>>,
    dir: Direction,
    line: int,
    start: int,
    end: int,
) -> bool {
    &&& run_ok(g, dict, dir, line, start)
    &&& forall|off: int| start <= off <= end ==> #[trigger] run_ok(g, dict, dir.flip(), off, line)
}

/// A run is the run through each of its cells.
pub proof fn lemma_run_through(g: Seq<usize>, dir: Direction, line: int, from: int, to: int, off: int)
    requires
        is_run(g, dir, line, from, to),
        from <= off <= to,
    ensures
        run_start(g, dir, line, off) == from,
        run_end(g, dir, line, off) == to,
{
    lemma_run_through_start(g, dir, line, from, to, off);
    lemma_run_through_end(g, dir, line, from, to, off);
}

/// A run starts where the run through each of its cells starts.
proof fn lemma_run_through_start(g: Seq<usize>, dir: Direction, line: int, from: int, to: int, off: int)
    requires
        is_run(g, dir, line, from, to),
        from <= off <= to,
    ensures
        run_start(g, dir, line, off) == from,
    decreases off - from,
{
    if off > from {
        assert(filled(g, dir, line, off - 1));
        lemma_run_through_start(g, dir, line, from, to, off - 1);
    }
}

/// A run ends where the run through each of its cells ends.
proof fn lemma_run_through_end(g: Seq<usize>, dir: Direction, line: int, from: int, to: int, off: int)
    requires
        is_run(g, dir, line, from, to),
        from <= off <= to,
    ensures
        run_end(g, dir, line, off) == to,
    decreases to - off,
{
    if off < to {
        assert(filled(g, dir, line, off + 1));
        lemma_run_through_end(g, dir, line, from, to, off + 1);
    }
}

/// The cells of `g2` are those of `g` but for the cells of line `line` from
/// offset `start` to offset `end`, which are filled in `g2`.
pub open spec fn differs_on_play(
    g: Seq<usize>,
    g2: Seq<usize>,
    dir: Direction,
    line: int,
    start: int,
    end: int,
) -> bool {
    &&& grid_wf(g)
    &&& grid_wf(g2)
    &&& 0 <= line < BOARD_SIZE
    &&& 0 <= start <= end < BOARD_SIZE
    &&& forall|l2: int, o2: int|
        in_grid(l2, o2) && !(l2 == line && start <= o2 <= end) ==> #[trigger] g2[line_index(dir, l2, o2)]
            == g[line_index(dir, l2, o2)]
    &&& forall|off: int| start <= off <= end ==> #[trigger] filled(g2, dir, line, off)
}

/// A run of the new board that lies along a line of the direction of play
/// and has two or more letters is a word.
proof fn lemma_run_along(
    g: Seq<usize>,
    g2: Seq<usize>,
    dict: Set<Seq<usize>>,
    dir: Direction,
    line: int,
    start: int,
    end: int,
    l2: int,
    from: int,
    to: int,
)
    requires
        differs_on_play(g, g2, dir, line, start, end),
        lines_valid(g, dict, dir),
        run_ok(g2, dict, dir, line, start),
        is_run(g2, dir, l2, from, to),
        from < to,
    ensures
        dict.contains(read_line(g2, dir, l2, from, to)),
{
    if l2 == line && from <= end && start <= to {
        // The run meets the play, so it holds all of it.
        if from > start {
            assert(filled(g2, dir, line, from - 1));
        }
        lemma_run_through(g2, dir, line, from, to, start);
    } else {
        if l2 == line {
            if to + 1 == start {
                assert(filled(g2, dir, line, start));
            }
            if from - 1 == end {
                assert(filled(g2, dir, line, end));
            }
        }
        assert forall|k: int| from - 1 <= k <= to + 1 && 0 <= k < BOARD_SIZE implies g2[line_index(
            dir,
            l2,
            k,
        )] == g[line_index(dir, l2, k)] by {
            assert(in_grid(l2, k));
        }
        assert forall|k: int| from <= k <= to implies #[trigger] filled(g, dir, l2, k) by {
            assert(filled(g2, dir, l2, k));
        }
        assert(is_run(g, dir, l2, from, to));
        assert(read_line(g, dir, l2, from, to) =~= read_line(g2, dir, l2, from, to));
    }
}

/// A run of the new board that lies across the direction of play and has
/// two or more letters is a word.
proof fn lemma_run_across(
    g: Seq<usize>,
    g2: Seq<usize>,
    dict: Set<Seq<usize>>,
    dir: Direction,
    line: int,
    start: int,
    end: int,
    l2: int,
    from: int,
    to: int,
)
    requires
        differs_on_play(g, g2, dir, line, start, end),
        lines_valid(g, dict, dir.flip()),
        forall|off: int| start <= off <= end ==> #[trigger] run_ok(g2, dict, dir.flip(), off, line),
        is_run(g2, dir.flip(), l2, from, to),
        from < to,
    ensures
        dict.contains(read_line(g2, dir.flip(), l2, from, to)),
{
    let across = dir.flip();
    if start <= l2 <= end && from <= line <= to {
        lemma_run_through(g2, across, l2, from, to, line);
        assert(run_ok(g2, dict, across, l2, line));
    } else {
        if start <= l2 <= end {
            assert(filled(g2, dir, line, l2));
            assert(filled(g2, across, l2, line));
        }
        assert forall|k: int| from - 1 <= k <= to + 1 && 0 <= k < BOARD_SIZE implies g2[line_index(
            across,
            l2,
            k,
        )] == g[line_index(across, l2, k)] by {
            assert(in_grid(k, l2));
            assert(line_index(across, l2, k) == line_index(dir, k, l2));
        }
        assert forall|k: int| from <= k <= to implies #[trigger] filled(g, across, l2, k) by {
            assert(filled(g2, across, l2, k));
        }
        assert(is_run(g, across, l2, from, to));
        assert(read_line(g, across, l2, from, to) =~= read_line(g2, across, l2, from, to));
    }
}

/// A valid board stays valid under a play whose own runs may stand on the board.
pub proof fn lemma_play_keeps_valid(
    g: Seq<usize>,
    g2: Seq<usize>,
    dict: Set<Seq<usize>>,
    dir: Direction,
    line: int,
    start: int,
    end: int,
)
    requires
        differs_on_play(g, g2, dir, line, start, end),
        board_valid(g, dict),
        play_is_valid(g2, dict, dir, line, start, end),
    ensures
        board_valid(g2, dict),
{
    let across = dir.flip();
    assert(lines_valid(g, dict, dir) && lines_valid(g, dict, across));
    assert forall|l2: int, from: int, to: int| #[trigger]
        is_run(g2, dir, l2, from, to) && from < to implies dict.contains(
        read_line(g2, dir, l2, from, to),
    ) by {
        lemma_run_along(g, g2, dict, dir, line, start, end, l2, from, to);
    }
    assert forall|l2: int, from: int, to: int| #[trigger]
        is_run(g2, across, l2, from, to) && from < to implies dict.contains(
        read_line(g2, across, l2, from, to),
    ) by {
        lemma_run_across(g, g2, dict, dir, line, start, end, l2, from, to);
    }
    assert(lines_valid(g2, dict, dir) && lines_valid(g2, dict, across));
}

} // verus!
