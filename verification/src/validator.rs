//! Checking the runs that a play has made or changed.
//!
//! The check is local: it reads the run along the line of the play and the
//! run across it through each cell of the play, and nothing else.

use vstd::prelude::*;
use crate::alphabet::{BOARD_SIZE, MAX_WORD_LENGTH};
use crate::board::{in_grid, Board};
use crate::line::Direction;
use crate::runs::{play_is_valid, read_line, run_end, run_ok, run_start};
use crate::wordset::WordSet;

verus! {

/// Checks the run through the cell at offset `off` of line `line`: it must
/// be a single letter or a word of `valid_words`.
pub fn is_run_valid(board: &Board, dir: Direction, line: usize, off: usize, valid_words: &WordSet) -> (ok:
    bool)
    requires
        board.wf(),
        in_grid(line as int, off as int),
    ensures
        ok == run_ok(board@, valid_words@, dir, line as int, off as int),
{
    // Find the furthest cells that the run reaches
    let mut first = off;
    while first > 0 && board.is_filled(dir, line, first - 1)
        invariant
            board.wf(),
            first <= off,
            run_start(board@, dir, line as int, first as int) == run_start(
                board@,
                dir,
                line as int,
                off as int,
            ),
        decreases first,
    {
        first -= 1;
    }
    let mut last = off;
    while last < BOARD_SIZE - 1 && board.is_filled(dir, line, last + 1)
        invariant
            board.wf(),
            off <= last < BOARD_SIZE,
            run_end(board@, dir, line as int, last as int) == run_end(
                board@,
                dir,
                line as int,
                off as int,
            ),
        decreases BOARD_SIZE - last,
    {
        last += 1;
    }
    let len = last - first + 1;
    if len < 2 {
        return true;
    }
    if len > MAX_WORD_LENGTH {
        return false;
    }
    let mut current_letters: Vec<usize> = Vec::with_capacity(MAX_WORD_LENGTH);
    let mut k = first;
    while k <= last
        invariant
            board.wf(),
            line < BOARD_SIZE,
            first <= k <= last + 1,
            last < BOARD_SIZE,
            current_letters@ == read_line(board@, dir, line as int, first as int, k - 1),
        decreases last + 1 - k,
    {
        current_letters.push(board.get_at(dir, line, k));
        assert(current_letters@ =~= read_line(board@, dir, line as int, first as int, k as int));
        k += 1;
    }
    valid_words.contains(&current_letters)
}

/// Checks the runs of a play along line `line`, from offset `start` to
/// offset `end`: the run along the line, and the run across it through each
/// cell of the play.
pub fn is_play_valid(
    board: &Board,
    dir: Direction,
    line: usize,
    start: usize,
    end: usize,
    valid_words: &WordSet,
) -> (ok: bool)
    requires
        board.wf(),
        line < BOARD_SIZE,
        start <= end < BOARD_SIZE,
    ensures
        ok == play_is_valid(board@, valid_words@, dir, line as int, start as int, end as int),
{
    if !is_run_valid(board, dir, line, start, valid_words) {
        return false;
    }
    let across = dir.flipped();
    let mut off = start;
    while off <= end
        invariant
            board.wf(),
            line < BOARD_SIZE,
            start <= off <= end + 1,
            end < BOARD_SIZE,
            across == dir.flip(),
            forall|o: int|
                start <= o < off ==> #[trigger] run_ok(board@, valid_words@, dir.flip(), o, line as int),
        decreases end + 1 - off,
    {
        if !is_run_valid(board, across, off, line, valid_words) {
            return false;
        }
        off += 1;
    }
    true
}

/// Checks that the board is valid after a word was played horizontally in
/// row `row`, from column `start_col` to column `end_col`. This does not
/// check that the letters of the board hang together.
pub fn is_board_valid_horizontal(
    board: &Board,
    row: usize,
    start_col: usize,
    end_col: usize,
    valid_words: &WordSet,
) -> (ok: bool)
    requires
        board.wf(),
        row < BOARD_SIZE,
        start_col <= end_col < BOARD_SIZE,
    ensures
        ok == play_is_valid(
            board@,
            valid_words@,
            Direction::Horizontal,
            row as int,
            start_col as int,
            end_col as int,
        ),
{
    is_play_valid(board, Direction::Horizontal, row, start_col, end_col, valid_words)
}

/// Checks that the board is valid after a word was played vertically in
/// column `col`, from row `start_row` to row `end_row`. This does not check
/// that the letters of the board hang together.
pub fn is_board_valid_vertical(
    board: &Board,
    start_row: usize,
    end_row: usize,
    col: usize,
    valid_words: &WordSet,
) -> (ok: bool)
    requires
        board.wf(),
        col < BOARD_SIZE,
        start_row <= end_row < BOARD_SIZE,
    ensures
        ok == play_is_valid(
            board@,
            valid_words@,
            Direction::Vertical,
            col as int,
            start_row as int,
            end_row as int,
        ),
{
    is_play_valid(board, Direction::Vertical, col, start_row, end_row, valid_words)
}

} // verus!
