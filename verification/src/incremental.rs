//! Extending a solved board when tiles were added to the hand.
//!
//! A single new tile is first tried in every empty cell beside a letter of
//! the board. If no cell takes it, or if more than one tile was added, the
//! new tiles alone are played onto the board by the search, with the board
//! as it is for a start.

use vstd::prelude::*;
use std::sync::atomic::AtomicBool;
use crate::alphabet::{Letters, Word, BOARD_SIZE, EMPTY_VALUE};
use crate::board::{grid_index, in_grid, occupied, Board};
use crate::bounds::{lemma_widen_frames, Bounds};
use crate::connectivity::lemma_play_keeps_connected;
use crate::driver::claim_board;
use crate::hand::{lemma_tally_le_len, lemma_tally_update, tally};
use crate::line::{filled, line_index, Direction};
use crate::placement::{anchored, beside};
use crate::runs::{board_valid, differs_on_play, lemma_play_keeps_valid, play_is_valid};
use crate::search::{
    extends, keeps_valid, lemma_play_is_valid_grows, no_play, search_ready, solves,
    try_play_word_horizontal, words_ok, SearchOutcome,
};
use crate::stop::{should_stop, signal_stop};
use crate::validator::is_board_valid_horizontal;
use crate::wordset::WordSet;

verus! {

/// The empty cell (`row`, `col`) takes the letter: it lies beside a letter
/// of the board, and with the letter in it the run along its row and the run
/// along its column may stand on the board.
pub open spec fn accepts(g: Seq<usize>, dict: Set<Seq<usize>>, letter: usize, row: int, col: int) -> bool {
    &&& in_grid(row, col)
    &&& g[grid_index(row, col)] == EMPTY_VALUE
    &&& anchored(g, Direction::Horizontal, row, col, 1)
    &&& play_is_valid(g.update(grid_index(row, col), letter), dict, Direction::Horizontal, row, col, col)
}

/// The cell (`row`, `col`) comes before the cell (`row2`, `col2`) when the
/// board is read row by row.
pub open spec fn comes_before(row: int, col: int, row2: int, col2: int) -> bool {
    row < row2 || (row == row2 && col < col2)
}

/// A letter laid into a cell that takes it keeps the board in one piece,
/// within the widened bounds, and valid if it was valid.
pub proof fn lemma_one_letter_step(
    g: Seq<usize>,
    on_board: Seq<usize>,
    dict: Set<Seq<usize>>,
    bounds: Bounds,
    letter: usize,
    row: usize,
    col: usize,
)
    requires
        search_ready(g, on_board, bounds),
        letter < 26,
        accepts(g, dict, letter, row as int, col as int),
    ensures
        ({
            let g2 = g.update(grid_index(row as int, col as int), letter);
            let on_board2 = on_board.update(letter as int, (on_board[letter as int] + 1) as usize);
            &&& search_ready(g2, on_board2, bounds.widen(Direction::Horizontal, row, col, col))
            &&& extends(g, g2)
            &&& keeps_valid(dict, g, g2)
            &&& forall|l: usize|
                l < 26 ==> #[trigger] tally(g2, l) == tally(g, l) + (if l == letter {
                    1nat
                } else {
                    0nat
                })
        }),
{
    let dir = Direction::Horizontal;
    let idx = grid_index(row as int, col as int);
    let g2 = g.update(idx, letter);
    assert forall|l2: int, o2: int|
        in_grid(l2, o2) && !(l2 == row && col <= o2 <= col) implies #[trigger] g2[line_index(dir, l2, o2)]
        == g[line_index(dir, l2, o2)] by {
        assert(line_index(dir, l2, o2) != idx);
    }
    assert forall|off: int| col <= off <= col implies #[trigger] filled(g2, dir, row as int, off) by {
        assert(line_index(dir, row as int, off) == idx);
    }
    assert(differs_on_play(g, g2, dir, row as int, col as int, col as int));
    assert forall|all: Set<Seq<usize>>|
        dict.subset_of(all) && #[trigger] board_valid(g, all) implies board_valid(g2, all) by {
        lemma_play_is_valid_grows(g2, dict, all, dir, row as int, col as int, col as int);
        lemma_play_keeps_valid(g, g2, all, dir, row as int, col as int, col as int);
    }
    lemma_play_keeps_connected(g, g2, dir, row as int, col as int, col as int);
    assert forall|r: int, c: int| #[trigger] occupied(g, r, c) implies g2[grid_index(r, c)] == g[grid_index(
        r,
        c,
    )] by {
        assert(grid_index(r, c) != idx);
    }
    assert forall|r: int, c: int| occupied(g, r, c) implies occupied(g2, r, c) by {
        assert(grid_index(r, c) != idx);
    }
    assert forall|l2: int, o2: int| #[trigger] filled(g2, dir, l2, o2) implies filled(g, dir, l2, o2) || (
    l2 == row && col <= o2 <= col) by {
        if !(l2 == row && o2 == col) {
            assert(g2[line_index(dir, l2, o2)] == g[line_index(dir, l2, o2)]);
        }
    }
    lemma_widen_frames(bounds, g, g2, dir, row, col, col);
    assert forall|l: usize| l < 26 implies #[trigger] tally(g2, l) == tally(g, l) + (if l == letter {
        1nat
    } else {
        0nat
    }) by {
        lemma_tally_update(g, idx, letter, l);
    }
    lemma_tally_le_len(g, letter);
}

/// A cell that takes a letter lies within the bounds of the board or right
/// beside them.
proof fn lemma_accepting_cell_is_near(
    g: Seq<usize>,
    dict: Set<Seq<usize>>,
    bounds: Bounds,
    letter: usize,
    row: int,
    col: int,
)
    requires
        bounds.wf(),
        bounds.covers(g),
        accepts(g, dict, letter, row, col),
    ensures
        bounds.min_row - 1 <= row <= bounds.max_row + 1,
        bounds.min_col - 1 <= col <= bounds.max_col + 1,
{
    let dir = Direction::Horizontal;
    if filled(g, dir, row, col - 1) {
        assert(occupied(g, row, col - 1));
    } else if filled(g, dir, row, col + 1) {
        assert(occupied(g, row, col + 1));
    } else {
        let i = choose|i: int| 0 <= i < 1 && #[trigger] beside(g, dir, row, col + i);
        if filled(g, dir, row - 1, col) {
            assert(occupied(g, row - 1, col));
        } else {
            assert(occupied(g, row + 1, col));
        }
    }
}

/// Tries to play a single letter on the board: in the first empty cell,
/// reading row by row, that lies beside a letter of the board and in which
/// the letter forms only words. Returns the row and the column of the cell
/// and the new bounds, or `None`, with the board unchanged, if no cell
/// takes the letter.
pub fn play_one_letter(board: &mut Board, bounds: Bounds, letter: usize, valid_words_set: &WordSet) -> (res:
    Option<(usize, usize, Bounds)>)
    requires
        old(board).wf(),
        bounds.wf(),
        bounds.covers(old(board)@),
        letter < 26,
    ensures
        final(board).wf(),
        match res {
            Some((row, col, new_bounds)) => {
                &&& accepts(old(board)@, valid_words_set@, letter, row as int, col as int)
                &&& final(board)@ == old(board)@.update(grid_index(row as int, col as int), letter)
                &&& new_bounds == bounds.widen(Direction::Horizontal, row, col, col)
                &&& forall|r: int, c: int|
                    comes_before(r, c, row as int, col as int) ==> !#[trigger] accepts(
                        old(board)@,
                        valid_words_set@,
                        letter,
                        r,
                        c,
                    )
            },
            None => {
                &&& final(board)@ == old(board)@
                &&& forall|r: int, c: int| !#[trigger] accepts(old(board)@, valid_words_set@, letter, r, c)
            },
        },
{
    let ghost g = board@;
    let ghost dict = valid_words_set@;
    let first_row = if bounds.min_row > 0 {
        bounds.min_row - 1
    } else {
        0
    };
    let last_row = if bounds.max_row + 1 < BOARD_SIZE {
        bounds.max_row + 1
    } else {
        BOARD_SIZE - 1
    };
    let first_col = if bounds.min_col > 0 {
        bounds.min_col - 1
    } else {
        0
    };
    let last_col = if bounds.max_col + 1 < BOARD_SIZE {
        bounds.max_col + 1
    } else {
        BOARD_SIZE - 1
    };
    proof {
        assert forall|r: int, c: int| #[trigger]
            accepts(g, dict, letter, r, c) implies first_row <= r <= last_row && first_col <= c
            <= last_col by {
            lemma_accepting_cell_is_near(g, dict, bounds, letter, r, c);
        }
    }
    // Loop through all possible locations and check if the letter works there
    let mut row = first_row;
    while row <= last_row
        invariant
            board.wf(),
            board@ == g,
            g == old(board)@,
            dict == valid_words_set@,
            letter < 26,
            first_row <= row <= last_row + 1,
            last_row < BOARD_SIZE,
            first_col <= last_col < BOARD_SIZE,
            forall|r: int, c: int| #[trigger]
                accepts(g, dict, letter, r, c) ==> first_row <= r <= last_row && first_col <= c
                    <= last_col,
            forall|r: int, c: int| r < row ==> !#[trigger] accepts(g, dict, letter, r, c),
        decreases last_row + 1 - row,
    {
        let mut col = first_col;
        while col <= last_col
            invariant
                board.wf(),
                board@ == g,
                g == old(board)@,
                dict == valid_words_set@,
                letter < 26,
                first_row <= row <= last_row,
                last_row < BOARD_SIZE,
                first_col <= col <= last_col + 1,
                last_col < BOARD_SIZE,
                forall|r: int, c: int| #[trigger]
                    accepts(g, dict, letter, r, c) ==> first_row <= r <= last_row && first_col <= c
                        <= last_col,
                forall|r: int, c: int| comes_before(r, c, row as int, col as int) ==> !#[trigger] accepts(
                        g,
                        dict,
                        letter,
                        r,
                        c,
                    ),
            decreases last_col + 1 - col,
        {
            if board.get_val(row, col) == EMPTY_VALUE {
                let touches = (col > 0 && board.is_filled(Direction::Horizontal, row, col - 1))
                    || board.is_filled(Direction::Horizontal, row, col + 1) || (row > 0
                    && board.is_filled(Direction::Horizontal, row - 1, col)) || board.is_filled(
                    Direction::Horizontal,
                    row + 1,
                    col,
                );
                proof {
                    if touches {
                        if !filled(g, Direction::Horizontal, row as int, col - 1) && !filled(
                            g,
                            Direction::Horizontal,
                            row as int,
                            col + 1,
                        ) {
                            assert(beside(g, Direction::Horizontal, row as int, col + 0));
                        }
                    } else {
                        assert forall|i: int| 0 <= i < 1 implies !#[trigger] beside(
                            g,
                            Direction::Horizontal,
                            row as int,
                            col + i,
                        ) by {}
                    }
                    assert(touches == anchored(g, Direction::Horizontal, row as int, col as int, 1));
                }
                if touches {
                    board.set_val(row, col, letter);
                    if is_board_valid_horizontal(board, row, col, col, valid_words_set) {
                        let new_bounds = bounds.widened(Direction::Horizontal, row, col, col);
                        return Some((row, col, new_bounds));
                    } else {
                        // The board was not valid with the letter in this cell: empty it again
                        board.set_val(row, col, EMPTY_VALUE);
                        assert(board@ =~= g);
                    }
                }
            }
            col += 1;
        }
        proof {
            assert forall|r: int, c: int| r < row + 1 implies !#[trigger] accepts(g, dict, letter, r, c) by {
                if r == row && accepts(g, dict, letter, r, c) {
                    assert(comes_before(r, c, row as int, col as int));
                }
            }
        }
        row += 1;
    }
    None
}

/// No word of the share can be played horizontally anywhere on the board
/// so that it forms only words.
pub open spec fn nothing_to_play(
    chunk: Seq<&Word>,
    g: Seq<usize>,
    on_board: Seq<usize>,
    dict: Set<Seq<usize>>,
    hand: Seq<usize>,
) -> bool {
    forall|i: int|
        0 <= i < chunk.len() ==> no_play(g, on_board, dict, (#[trigger] chunk[i])@, Direction::Horizontal, hand)
}

/// Works through a share of the words to play onto an existing board. Each
/// word of `chunk` is tried horizontally anywhere near the letters of the
/// board, with the letters of `hand_letters`; a play that leaves tiles in the
/// hand is followed by the search. The worker that finds a solution sets
/// the stop flag and returns the board with its bounds. A share of which no
/// word can be played gives nothing.
pub fn play_existing(
    chunk: &Vec<&Word>,
    old_board: &Board,
    bounds: Bounds,
    valid_words_vec: &Vec<&Word>,
    valid_words_set: &WordSet,
    hand_letters: Letters,
    old_letters_on_board: Letters,
    filter_letters_on_board: usize,
    max_words_to_check: usize,
    stop: &AtomicBool,
) -> (found: Option<(Board, Bounds)>)
    requires
        old_board.wf(),
        search_ready(old_board@, old_letters_on_board@, bounds),
        words_ok(chunk@),
        words_ok(valid_words_vec@),
    ensures
        nothing_to_play(chunk@, old_board@, old_letters_on_board@, valid_words_set@, hand_letters@)
            ==> found is None,
        found is Some ==> (found->0).0.wf(),
        found is Some ==> exists|on_board: Seq<usize>| #[trigger]
            solves(old_board@, (found->0).0@, on_board, valid_words_set@, hand_letters@, (found->0).1),
{
    let mut words_checked: usize = 0;
    let mut board = old_board.clone();
    let mut i: usize = 0;
    while i < chunk.len()
        invariant
            board.wf(),
            board@ == old_board@,
            search_ready(old_board@, old_letters_on_board@, bounds),
            words_ok(chunk@),
            words_ok(valid_words_vec@),
        decreases chunk.len() - i,
    {
        let word = chunk[i];
        let mut letters_on_board: Letters = old_letters_on_board;
        let r = try_play_word_horizontal(
            &mut board,
            word,
            bounds,
            valid_words_vec,
            valid_words_set,
            hand_letters,
            0,
            &mut words_checked,
            &mut letters_on_board,
            filter_letters_on_board,
            max_words_to_check,
            stop,
        );
        match r {
            SearchOutcome::Solved(found_bounds) => {
                let ghost solved = board@;
                assert(solves(
                    old_board@,
                    solved,
                    letters_on_board@,
                    valid_words_set@,
                    hand_letters@,
                    found_bounds,
                ));
                let stopped = should_stop(stop);
                let found = claim_board(stopped, board, found_bounds);
                if found.is_some() {
                    assert((found->0).0@ == solved && (found->0).1 == found_bounds);
                    signal_stop(stop);
                }
                return found;
            },
            SearchOutcome::Aborted => {
                return None;
            },
            SearchOutcome::NotFoundAtThisNode => {},
        }
        i += 1;
    }
    None
}

} // verus!
